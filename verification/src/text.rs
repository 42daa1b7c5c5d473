//! Text as a sequence of characters: searching, trimming, splitting and joining.

use vstd::prelude::*;
use vstd::utf8::encode_utf8;

verus! {

// ---------------------------------------------------------------------------
// Trusted: two functions of the standard library
// ---------------------------------------------------------------------------

/// What `str::to_lowercase` makes of a text. The Unicode case tables decide it.
pub uninterp spec fn lowercase(s: Seq<char>) -> Seq<char>;

/// `str::to_lowercase`: the result is the lower case form of the text, which depends on the
/// text alone.
pub assume_specification[ str::to_lowercase ](s: &str) -> (r: String)
    ensures
        r@ == lowercase(s@),
;

/// `String::push`: appends one character at the end.
pub assume_specification[ String::push ](s: &mut String, c: char)
    ensures
        final(s)@ == old(s)@.push(c),
;

// ---------------------------------------------------------------------------
// Specification
// ---------------------------------------------------------------------------

/// `pat` stands in `s` at position `i`.
pub open spec fn occurs_at(s: Seq<char>, pat: Seq<char>, i: int) -> bool {
    &&& 0 <= i
    &&& i + pat.len() <= s.len()
    &&& s.subrange(i, i + pat.len()) == pat
}

/// `pat` stands somewhere in `s`.
pub open spec fn has_text(s: Seq<char>, pat: Seq<char>) -> bool {
    exists|i: int| occurs_at(s, pat, i)
}

/// `s` begins with `pat`.
pub open spec fn has_prefix(s: Seq<char>, pat: Seq<char>) -> bool {
    occurs_at(s, pat, 0)
}

/// The characters of the Unicode property `White_Space`.
pub open spec fn is_space(c: char) -> bool {
    ||| '\u{9}' <= c <= '\u{d}'
    ||| c == ' '
    ||| c == '\u{85}'
    ||| c == '\u{a0}'
    ||| c == '\u{1680}'
    ||| '\u{2000}' <= c <= '\u{200a}'
    ||| c == '\u{2028}'
    ||| c == '\u{2029}'
    ||| c == '\u{202f}'
    ||| c == '\u{205f}'
    ||| c == '\u{3000}'
}

/// `pat` stands in `s` at `i`, set off from what is ahead of it: at the start, or behind a blank.
pub open spec fn begins_word(s: Seq<char>, pat: Seq<char>, i: int) -> bool {
    occurs_at(s, pat, i) && (i == 0 || is_space(s[i - 1]))
}

/// A word of `s` begins with `pat`.
pub open spec fn has_word(s: Seq<char>, pat: Seq<char>) -> bool {
    exists|i: int| begins_word(s, pat, i)
}

/// A set of characters that can be cut off the ends of a text.
#[derive(Clone, Copy, Debug, PartialEq, Eq)]
pub enum Edge {
    /// White space.
    Space,
    /// One character.
    Only(char),
    /// Either of two characters.
    Either(char, char),
}

impl Edge {
    /// `c` belongs to the set.
    pub open spec fn has(self, c: char) -> bool {
        match self {
            Edge::Space => is_space(c),
            Edge::Only(a) => c == a,
            Edge::Either(a, b) => c == a || c == b,
        }
    }
}

/// `s` without the characters of `edge` that it begins with.
pub open spec fn trim_front(s: Seq<char>, edge: Edge) -> Seq<char>
    decreases s.len(),
{
    if s.len() > 0 && edge.has(s[0]) {
        trim_front(s.drop_first(), edge)
    } else {
        s
    }
}

/// `s` without the characters of `edge` that it ends with.
pub open spec fn trim_back(s: Seq<char>, edge: Edge) -> Seq<char>
    decreases s.len(),
{
    if s.len() > 0 && edge.has(s.last()) {
        trim_back(s.drop_last(), edge)
    } else {
        s
    }
}

/// `s` without the characters of `edge` at either end.
pub open spec fn trimmed(s: Seq<char>, edge: Edge) -> Seq<char> {
    trim_back(trim_front(s, edge), edge)
}

/// The pieces of `s` between the occurrences of `sep`: always one more than there are
/// occurrences.
pub open spec fn pieces(s: Seq<char>, sep: char) -> Seq<Seq<char>>
    decreases s.len(),
{
    if s.len() == 0 {
        seq![Seq::empty()]
    } else {
        let front = pieces(s.drop_last(), sep);
        if s.last() == sep {
            front.push(Seq::empty())
        } else {
            front.drop_last().push(front.last().push(s.last()))
        }
    }
}

/// `parts` one after the other, with `sep` between neighbours.
pub open spec fn joined(parts: Seq<Seq<char>>, sep: Seq<char>) -> Seq<char>
    decreases parts.len(),
{
    if parts.len() == 0 {
        Seq::empty()
    } else if parts.len() == 1 {
        parts[0]
    } else {
        joined(parts.drop_last(), sep) + sep + parts.last()
    }
}

/// `n` copies of `c`.
pub open spec fn copies(c: char, n: nat) -> Seq<char> {
    Seq::new(n, |i: int| c)
}

/// The texts that a list of strings holds.
pub open spec fn texts(v: Seq<String>) -> Seq<Seq<char>> {
    v.map_values(|s: String| s@)
}

// ---------------------------------------------------------------------------
// Characters in and out
// ---------------------------------------------------------------------------

/// The characters of a text.
pub fn chars_of(s: &str) -> (r: Vec<char>)
    ensures
        r@ == s@,
{
    let mut r: Vec<char> = Vec::new();
    for c in it: s.chars()
        invariant
            it.seq() == s@,
            r@ == s@.take(it.index() as int),
    {
        r.push(c);
    }
    assert(s@.take(s@.len() as int) == s@);
    r
}

/// A text of the characters from `from` up to `to`.
pub fn text_of(s: &Vec<char>, from: usize, to: usize) -> (r: String)
    requires
        from <= to <= s@.len(),
    ensures
        r@ == s@.subrange(from as int, to as int),
{
    let mut r = String::new();
    let mut i: usize = from;
    while i < to
        invariant
            from <= i <= to <= s@.len(),
            r@ == s@.subrange(from as int, i as int),
        decreases to - i,
    {
        r.push(s[i]);
        i += 1;
        assert(s@.subrange(from as int, i as int) == s@.subrange(from as int, i - 1).push(
            s@[i - 1],
        ));
    }
    r
}

/// The two texts are the same.
pub fn same_text(a: &str, b: &str) -> (r: bool)
    ensures
        r == (a@ == b@),
{
    let x = chars_of(a);
    let y = chars_of(b);
    if x.len() != y.len() {
        return false;
    }
    let mut i: usize = 0;
    while i < x.len()
        invariant
            x@ == a@,
            y@ == b@,
            x@.len() == y@.len(),
            i <= x@.len(),
            forall|k: int| 0 <= k < i ==> x@[k] == y@[k],
        decreases x@.len() - i,
    {
        if x[i] != y[i] {
            return false;
        }
        i += 1;
    }
    assert(a@ == b@);
    true
}

// ---------------------------------------------------------------------------
// Searching
// ---------------------------------------------------------------------------

/// `pat` stands in `s` at position `i`.
fn stands_at(s: &Vec<char>, pat: &Vec<char>, i: usize) -> (r: bool)
    requires
        i <= s@.len(),
    ensures
        r == occurs_at(s@, pat@, i as int),
{
    if s.len() - i < pat.len() {
        return false;
    }
    let n = s.len();
    let mut k: usize = 0;
    while k < pat.len()
        invariant
            n == s@.len(),
            i + pat@.len() <= n,
            k <= pat@.len(),
            forall|j: int| 0 <= j < k ==> s@[i + j] == pat@[j],
        decreases pat@.len() - k,
    {
        if s[i + k] != pat[k] {
            assert(s@.subrange(i as int, i + pat@.len())[k as int] != pat@[k as int]);
            return false;
        }
        k += 1;
    }
    assert(s@.subrange(i as int, i + pat@.len()) == pat@);
    true
}

/// The first position at which `pat` stands in `s`.
pub fn find_text(s: &Vec<char>, pat: &str) -> (r: Option<usize>)
    ensures
        match r {
            Some(i) => occurs_at(s@, pat@, i as int) && forall|j: int|
                0 <= j < i ==> !occurs_at(s@, pat@, j),
            None => !has_text(s@, pat@),
        },
{
    let p = chars_of(pat);
    let mut i: usize = 0;
    while i < s.len()
        invariant
            p@ == pat@,
            i <= s@.len(),
            forall|j: int| 0 <= j < i ==> !occurs_at(s@, pat@, j),
        decreases s@.len() - i,
    {
        if stands_at(s, &p, i) {
            return Some(i);
        }
        i += 1;
    }
    if stands_at(s, &p, i) {
        return Some(i);
    }
    None
}

/// The first position at which a word of `s` begins with `pat`.
pub fn find_word(s: &Vec<char>, pat: &str) -> (r: Option<usize>)
    ensures
        match r {
            Some(i) => begins_word(s@, pat@, i as int) && forall|j: int|
                0 <= j < i ==> !begins_word(s@, pat@, j),
            None => !has_word(s@, pat@),
        },
{
    let p = chars_of(pat);
    if stands_at(s, &p, 0) {
        return Some(0);
    }
    let mut i: usize = 0;
    while i < s.len()
        invariant
            p@ == pat@,
            i <= s@.len(),
            forall|j: int| 0 <= j <= i ==> !begins_word(s@, pat@, j),
        decreases s@.len() - i,
    {
        if is_whitespace(s[i]) && stands_at(s, &p, i + 1) {
            return Some(i + 1);
        }
        i += 1;
    }
    None
}

/// `str::contains` for a text pattern.
pub fn contains(s: &str, pat: &str) -> (r: bool)
    ensures
        r == has_text(s@, pat@),
{
    let v = chars_of(s);
    match find_text(&v, pat) {
        Some(_) => true,
        None => false,
    }
}

/// `str::starts_with` for a text pattern.
pub fn starts_with(s: &str, pat: &str) -> (r: bool)
    ensures
        r == has_prefix(s@, pat@),
{
    let v = chars_of(s);
    let p = chars_of(pat);
    stands_at(&v, &p, 0)
}

/// There is nothing in the text.
pub fn is_empty(s: &str) -> (r: bool)
    ensures
        r == (s@.len() == 0),
{
    for c in it: s.chars()
        invariant
            it.seq() == s@,
            it.index() == 0,
    {
        return false;
    }
    true
}

/// `str::contains` for one character.
pub fn contains_char(s: &str, c: char) -> (r: bool)
    ensures
        r == s@.contains(c),
{
    let v = chars_of(s);
    let mut i: usize = 0;
    while i < v.len()
        invariant
            v@ == s@,
            i <= v@.len(),
            forall|k: int| 0 <= k < i ==> v@[k] != c,
        decreases v@.len() - i,
    {
        if v[i] == c {
            assert(s@[i as int] == c);
            return true;
        }
        i += 1;
    }
    false
}

/// `char::is_whitespace`.
pub fn is_whitespace(c: char) -> (r: bool)
    ensures
        r == is_space(c),
{
    ('\u{9}' <= c && c <= '\u{d}') || c == ' ' || c == '\u{85}' || c == '\u{a0}' || c == '\u{1680}'
        || ('\u{2000}' <= c && c <= '\u{200a}') || c == '\u{2028}' || c == '\u{2029}' || c
        == '\u{202f}' || c == '\u{205f}' || c == '\u{3000}'
}

// ---------------------------------------------------------------------------
// Trimming
// ---------------------------------------------------------------------------

impl Edge {
    /// `c` belongs to the set.
    pub fn takes(&self, c: char) -> (r: bool)
        ensures
            r == self.has(c),
    {
        match self {
            Edge::Space => is_whitespace(c),
            Edge::Only(a) => c == *a,
            Edge::Either(a, b) => c == *a || c == *b,
        }
    }
}

/// `str::trim` and `str::trim_matches`: the text without the characters of `edge` at its ends.
pub fn trim(s: &str, edge: Edge) -> (r: String)
    ensures
        r@ == trimmed(s@, edge),
{
    let v = chars_of(s);
    let mut from: usize = 0;
    assert(v@.skip(0) == v@);
    while from < v.len() && edge.takes(v[from])
        invariant
            v@ == s@,
            from <= v@.len(),
            trim_front(s@, edge) == trim_front(v@.skip(from as int), edge),
        decreases v@.len() - from,
    {
        assert(v@.skip(from as int).drop_first() == v@.skip(from + 1));
        from += 1;
    }
    let ghost front = v@.skip(from as int);
    assert(trim_front(s@, edge) == front);
    let mut to: usize = v.len();
    assert(v@.subrange(from as int, to as int) == front);
    while to > from && edge.takes(v[to - 1])
        invariant
            v@ == s@,
            from <= to <= v@.len(),
            trim_back(front, edge) == trim_back(v@.subrange(from as int, to as int), edge),
        decreases to,
    {
        assert(v@.subrange(from as int, to as int).drop_last() == v@.subrange(
            from as int,
            to - 1,
        ));
        to -= 1;
    }
    text_of(&v, from, to)
}

// ---------------------------------------------------------------------------
// Splitting and joining
// ---------------------------------------------------------------------------

/// There is always a piece.
pub proof fn lemma_pieces_nonempty(s: Seq<char>, sep: char)
    ensures
        pieces(s, sep).len() >= 1,
    decreases s.len(),
{
    if s.len() > 0 {
        lemma_pieces_nonempty(s.drop_last(), sep);
    }
}

/// `str::split` for one character.
pub fn split(s: &str, sep: char) -> (r: Vec<String>)
    ensures
        texts(r@) == pieces(s@, sep),
{
    let v = chars_of(s);
    let mut done: Vec<String> = Vec::new();
    let mut last = String::new();
    let mut i: usize = 0;
    assert(v@.take(0) == Seq::<char>::empty());
    assert(texts(done@).push(last@) == pieces(v@.take(0), sep));
    while i < v.len()
        invariant
            v@ == s@,
            i <= v@.len(),
            texts(done@).push(last@) == pieces(v@.take(i as int), sep),
        decreases v@.len() - i,
    {
        let c = v[i];
        let ghost before = pieces(v@.take(i as int), sep);
        let ghost done0 = done@;
        let ghost last0 = last@;
        assert(v@.take(i + 1).drop_last() == v@.take(i as int));
        assert(before.drop_last() == texts(done0));
        assert(before.last() == last0);
        if c == sep {
            done.push(last);
            last = String::new();
            assert(texts(done@) == texts(done0).push(last0));
            assert(texts(done@).push(last@) == before.push(Seq::empty()));
        } else {
            last.push(c);
            assert(texts(done@).push(last@) == before.drop_last().push(before.last().push(c)));
        }
        i += 1;
    }
    assert(v@.take(i as int) == s@);
    let ghost done0 = done@;
    let ghost last0 = last@;
    done.push(last);
    assert(texts(done@) == texts(done0).push(last0));
    done
}

/// `[String]::join`.
pub fn join(parts: &Vec<String>, sep: &str) -> (r: String)
    ensures
        r@ == joined(texts(parts@), sep@),
{
    let mut r = String::new();
    let mut i: usize = 0;
    assert(texts(parts@).take(0) == Seq::<Seq<char>>::empty());
    while i < parts.len()
        invariant
            i <= parts@.len(),
            r@ == joined(texts(parts@).take(i as int), sep@),
        decreases parts@.len() - i,
    {
        let ghost all = texts(parts@);
        assert(all.take(i + 1).drop_last() == all.take(i as int));
        assert(all.take(i + 1).last() == parts@[i as int]@);
        if i > 0 {
            r.append(sep);
            r.append(parts[i].as_str());
        } else {
            r.append(parts[i].as_str());
            assert(r@ == parts@[0]@);
        }
        i += 1;
    }
    assert(texts(parts@).take(i as int) == texts(parts@));
    r
}

/// `str::repeat` for one character.
pub fn repeat(c: char, n: usize) -> (r: String)
    ensures
        r@ == copies(c, n as nat),
{
    let mut r = String::new();
    let mut i: usize = 0;
    while i < n
        invariant
            i <= n,
            r@ == copies(c, i as nat),
        decreases n - i,
    {
        r.push(c);
        i += 1;
        assert(copies(c, i as nat) == copies(c, (i - 1) as nat).push(c));
    }
    r
}

/// The two texts one after the other.
pub fn append(a: &str, b: &str) -> (r: String)
    ensures
        r@ == a@ + b@,
{
    let mut r = a.to_owned();
    r.append(b);
    r
}

// ---------------------------------------------------------------------------
// Laws
// ---------------------------------------------------------------------------

/// Joining the pieces of a text with the character it was split at gives the text back.
pub proof fn law_join_undoes_split(s: Seq<char>, sep: char)
    ensures
        joined(pieces(s, sep), seq![sep]) == s,
    decreases s.len(),
{
    if s.len() > 0 {
        let front = pieces(s.drop_last(), sep);
        law_join_undoes_split(s.drop_last(), sep);
        lemma_pieces_nonempty(s.drop_last(), sep);
        if s.last() == sep {
            assert(front.push(Seq::empty()).drop_last() == front);
            assert(joined(front, seq![sep]) + seq![sep] + Seq::<char>::empty() == s);
        } else {
            let whole = front.drop_last().push(front.last().push(s.last()));
            if front.len() > 1 {
                assert(whole.drop_last() == front.drop_last());
                assert(joined(front.drop_last(), seq![sep]) + seq![sep] + front.last().push(
                    s.last(),
                ) == (joined(front.drop_last(), seq![sep]) + seq![sep] + front.last()).push(
                    s.last(),
                ));
            }
            assert(joined(whole, seq![sep]) == s.drop_last().push(s.last()));
            assert(s.drop_last().push(s.last()) == s);
        }
    } else {
        assert(joined(pieces(s, sep), seq![sep]) == s);
    }
}

/// No piece of a split text holds the character it was split at.
pub proof fn law_pieces_lack_separator(s: Seq<char>, sep: char)
    ensures
        forall|i: int| 0 <= i < pieces(s, sep).len() ==> !(#[trigger] pieces(s, sep)[i]).contains(
            sep,
        ),
    decreases s.len(),
{
    if s.len() > 0 {
        let front = pieces(s.drop_last(), sep);
        law_pieces_lack_separator(s.drop_last(), sep);
        lemma_pieces_nonempty(s.drop_last(), sep);
        assert(!front.last().contains(sep));
        if s.last() != sep {
            let grown = front.last().push(s.last());
            assert forall|k: int| 0 <= k < grown.len() implies grown[k] != sep by {
                if k < front.last().len() {
                    assert(front.last()[k] == grown[k]);
                }
            }
        }
    }
}

/// A trimmed text neither begins nor ends with a character that was to be cut off.
pub proof fn law_trimmed_edges(s: Seq<char>, edge: Edge)
    ensures
        trimmed(s, edge).len() > 0 ==> !edge.has(trimmed(s, edge)[0]) && !edge.has(
            trimmed(s, edge).last(),
        ),
{
    lemma_trim_front_edge(s, edge);
    lemma_trim_back_edge(trim_front(s, edge), edge);
}

proof fn lemma_trim_front_edge(s: Seq<char>, edge: Edge)
    ensures
        trim_front(s, edge).len() > 0 ==> !edge.has(trim_front(s, edge)[0]),
    decreases s.len(),
{
    if s.len() > 0 && edge.has(s[0]) {
        lemma_trim_front_edge(s.drop_first(), edge);
    }
}

proof fn lemma_trim_back_edge(s: Seq<char>, edge: Edge)
    ensures
        trim_back(s, edge).len() > 0 ==> !edge.has(trim_back(s, edge).last()) && trim_back(
            s,
            edge,
        )[0] == s[0],
    decreases s.len(),
{
    if s.len() > 0 && edge.has(s.last()) {
        lemma_trim_back_edge(s.drop_last(), edge);
    }
}

/// What is put between two texts is found there, and what a text begins with is found at its start.
pub proof fn law_text_found(a: Seq<char>, pat: Seq<char>, b: Seq<char>)
    ensures
        has_text(a + pat + b, pat),
        has_prefix(pat + b, pat),
{
    assert((a + pat + b).subrange(a.len() as int, (a.len() + pat.len()) as int) == pat);
    assert(occurs_at(a + pat + b, pat, a.len() as int));
    assert((pat + b).subrange(0, pat.len() as int) == pat);
}

/// A text in which another is found is made of something, that text, and something more.
pub proof fn law_found_text_parts(s: Seq<char>, pat: Seq<char>) -> (r: (Seq<char>, Seq<char>))
    requires
        has_text(s, pat),
    ensures
        s == r.0 + pat + r.1,
        has_prefix(s, pat) ==> pat.is_prefix_of(s),
{
    let i = choose|i: int| occurs_at(s, pat, i);
    assert(s.subrange(i, i + pat.len()) == pat);
    assert(s == s.take(i) + s.subrange(i, i + pat.len()) + s.skip(i + pat.len() as int));
    (s.take(i), s.skip(i + pat.len() as int))
}

/// A text begins a word exactly at the start of what it stands in, or behind a blank.
pub proof fn law_word_set_off(a: Seq<char>, pat: Seq<char>, b: Seq<char>)
    ensures
        begins_word(a + pat + b, pat, a.len() as int) <==> a.len() == 0 || is_space(a.last()),
{
    assert((a + pat + b).subrange(a.len() as int, (a.len() + pat.len()) as int) == pat);
    if a.len() > 0 {
        assert((a + pat + b)[a.len() - 1] == a.last());
    }
}

/// All characters of the text belong to the set.
pub open spec fn all_edge(s: Seq<char>, edge: Edge) -> bool {
    forall|i: int| 0 <= i < s.len() ==> edge.has(#[trigger] s[i])
}

proof fn lemma_trim_front_all(a: Seq<char>, t: Seq<char>, edge: Edge)
    requires
        all_edge(a, edge),
        t.len() > 0 ==> !edge.has(t[0]),
    ensures
        trim_front(a + t, edge) == t,
    decreases a.len(),
{
    if a.len() == 0 {
        assert(a + t == t);
    } else {
        let rest = a.drop_first();
        assert forall|i: int| 0 <= i < rest.len() implies edge.has(#[trigger] rest[i]) by {
            assert(rest[i] == a[i + 1]);
        }
        lemma_trim_front_all(rest, t, edge);
        assert((a + t)[0] == a[0]);
        assert((a + t).drop_first() == rest + t);
    }
}

proof fn lemma_trim_back_all(t: Seq<char>, b: Seq<char>, edge: Edge)
    requires
        all_edge(b, edge),
        t.len() > 0 ==> !edge.has(t.last()),
    ensures
        trim_back(t + b, edge) == t,
    decreases b.len(),
{
    if b.len() == 0 {
        assert(t + b == t);
    } else {
        let rest = b.drop_last();
        assert forall|i: int| 0 <= i < rest.len() implies edge.has(#[trigger] rest[i]) by {
            assert(rest[i] == b[i]);
        }
        lemma_trim_back_all(t, rest, edge);
        assert((t + b).last() == b[b.len() - 1]);
        assert((t + b).drop_last() == t + rest);
    }
}

/// Trimming cuts off what belongs to the set at either end, and nothing else: what is between the
/// first and the last character outside the set is left as it is.
pub proof fn law_trimmed_inside(a: Seq<char>, t: Seq<char>, b: Seq<char>, edge: Edge)
    requires
        all_edge(a, edge),
        all_edge(b, edge),
        t.len() > 0 ==> !edge.has(t[0]) && !edge.has(t.last()),
    ensures
        trimmed(a + t + b, edge) == t,
{
    if t.len() > 0 {
        assert(a + t + b == a + (t + b));
        lemma_trim_front_all(a, t + b, edge);
        lemma_trim_back_all(t, b, edge);
    } else {
        let all = a + t + b;
        assert forall|i: int| 0 <= i < all.len() implies edge.has(#[trigger] all[i]) by {
            if i < a.len() {
                assert(all[i] == a[i]);
            } else {
                assert(all[i] == b[i - a.len()]);
            }
        }
        assert(all + t == all);
        lemma_trim_front_all(all, t, edge);
    }
}

/// A text is what trimming leaves, with characters of the set around it.
pub proof fn law_trimmed_parts(s: Seq<char>, edge: Edge) -> (r: (Seq<char>, Seq<char>))
    ensures
        s == r.0 + trimmed(s, edge) + r.1,
        all_edge(r.0, edge),
        all_edge(r.1, edge),
    decreases s.len(),
{
    if s.len() > 0 && edge.has(s[0]) {
        let (a, b) = law_trimmed_parts(s.drop_first(), edge);
        let front = seq![s[0]] + a;
        assert forall|i: int| 0 <= i < front.len() implies edge.has(#[trigger] front[i]) by {
            if i > 0 {
                assert(front[i] == a[i - 1]);
            }
        }
        assert(s == seq![s[0]] + s.drop_first());
        assert(s == front + trimmed(s, edge) + b);
        (front, b)
    } else {
        let back = lemma_trim_back_parts(s, edge);
        assert(s == Seq::<char>::empty() + trimmed(s, edge) + back);
        (Seq::empty(), back)
    }
}

proof fn lemma_trim_back_parts(s: Seq<char>, edge: Edge) -> (b: Seq<char>)
    ensures
        s == trim_back(s, edge) + b,
        all_edge(b, edge),
    decreases s.len(),
{
    if s.len() > 0 && edge.has(s.last()) {
        let rest = lemma_trim_back_parts(s.drop_last(), edge);
        let b = rest.push(s.last());
        assert forall|i: int| 0 <= i < b.len() implies edge.has(#[trigger] b[i]) by {
            if i < rest.len() {
                assert(b[i] == rest[i]);
            }
        }
        assert(s == s.drop_last().push(s.last()));
        assert(s == trim_back(s, edge) + b);
        b
    } else {
        assert(s == s + Seq::<char>::empty());
        Seq::empty()
    }
}

/// A text without the character to split at is its only piece.
pub proof fn law_whole_piece(s: Seq<char>, sep: char)
    requires
        !s.contains(sep),
    ensures
        pieces(s, sep) == seq![s],
    decreases s.len(),
{
    if s.len() > 0 {
        let front = s.drop_last();
        assert(s[s.len() - 1] == s.last());
        assert forall|i: int| 0 <= i < front.len() implies front[i] != sep by {
            assert(s[i] == front[i]);
        }
        law_whole_piece(front, sep);
        assert(front.push(s.last()) == s);
        assert(pieces(s, sep) == seq![s]);
    } else {
        assert(s == Seq::<char>::empty());
    }
}

/// Splitting at a character cuts a text there, whatever is ahead of it and behind it.
pub proof fn law_pieces_cut(a: Seq<char>, sep: char, b: Seq<char>)
    ensures
        pieces(a.push(sep) + b, sep) == pieces(a, sep) + pieces(b, sep),
    decreases b.len(),
{
    let s = a.push(sep) + b;
    lemma_pieces_nonempty(a, sep);
    if b.len() == 0 {
        assert(s == a.push(sep));
        assert(s.drop_last() == a);
        assert(pieces(s, sep) == pieces(a, sep) + pieces(b, sep));
    } else {
        law_pieces_cut(a, sep, b.drop_last());
        lemma_pieces_nonempty(b.drop_last(), sep);
        assert(s.drop_last() == a.push(sep) + b.drop_last());
        assert(s.last() == b.last());
        let (x, y) = (pieces(a, sep), pieces(b.drop_last(), sep));
        assert((x + y).last() == y.last());
        assert((x + y).drop_last() == x + y.drop_last());
        assert(pieces(s, sep) == x + pieces(b, sep));
    }
}

/// Splitting a text that was joined gives its parts back, where none of them holds the character
/// that was put between them.
pub proof fn law_split_undoes_join(parts: Seq<Seq<char>>, sep: char)
    requires
        parts.len() > 0,
        forall|i: int| 0 <= i < parts.len() ==> !(#[trigger] parts[i]).contains(sep),
    ensures
        pieces(joined(parts, seq![sep]), sep) == parts,
    decreases parts.len(),
{
    if parts.len() == 1 {
        law_whole_piece(parts[0], sep);
        assert(seq![parts[0]] == parts);
    } else {
        let front = parts.drop_last();
        assert forall|i: int| 0 <= i < front.len() implies !(#[trigger] front[i]).contains(sep) by {
            assert(front[i] == parts[i]);
        }
        law_split_undoes_join(front, sep);
        assert(!parts[parts.len() - 1].contains(sep));
        let a = joined(front, seq![sep]);
        assert(a + seq![sep] + parts.last() == a.push(sep) + parts.last());
        law_pieces_cut(a, sep, parts.last());
        law_whole_piece(parts.last(), sep);
        assert(front + seq![parts.last()] == parts);
    }
}

/// Joining two lists puts the same between them as between their parts.
pub proof fn law_joined_lists(a: Seq<Seq<char>>, b: Seq<Seq<char>>, sep: Seq<char>)
    requires
        a.len() > 0,
        b.len() > 0,
    ensures
        joined(a + b, sep) == joined(a, sep) + sep + joined(b, sep),
        b.len() == 1 ==> joined(b, sep) == b[0],
    decreases b.len(),
{
    assert((a + b).drop_last() == a + b.drop_last());
    assert((a + b).last() == b.last());
    if b.len() == 1 {
        assert(a + b.drop_last() == a);
    } else {
        law_joined_lists(a, b.drop_last(), sep);
        assert(joined(a, sep) + sep + joined(b.drop_last(), sep) + sep + b.last() == joined(a, sep)
            + sep + (joined(b.drop_last(), sep) + sep + b.last()));
    }
}

/// The bytes of two texts one after the other are those of the first, then those of the second.
pub proof fn lemma_bytes_concat(a: Seq<char>, b: Seq<char>)
    ensures
        encode_utf8(a + b) == encode_utf8(a) + encode_utf8(b),
    decreases a.len(),
{
    if a.len() == 0 {
        assert(a + b == b);
        assert(encode_utf8(a) + encode_utf8(b) == encode_utf8(b));
    } else {
        lemma_bytes_concat(a.drop_first(), b);
        assert((a + b).drop_first() == a.drop_first() + b);
        assert((a + b)[0] == a[0]);
        assert(encode_utf8(a + b) == encode_utf8(a) + encode_utf8(b));
    }
}

/// A character takes from one to four bytes.
pub proof fn lemma_bytes_bound(s: Seq<char>)
    ensures
        s.len() <= encode_utf8(s).len() <= 4 * s.len(),
    decreases s.len(),
{
    if s.len() > 0 {
        lemma_bytes_bound(s.drop_first());
    }
}

/// Trimming blanks leaves all that is between two characters that are none.
pub proof fn lemma_trimmed_covers(a: Seq<char>, t: Seq<char>, b: Seq<char>)
    requires
        t.len() > 0,
        !is_space(t[0]),
        !is_space(t.last()),
    ensures
        trimmed(a + t + b, Edge::Space).len() >= t.len(),
{
    let s = a + t + b;
    let (x, y) = law_trimmed_parts(s, Edge::Space);
    let r = trimmed(s, Edge::Space);
    let (p, q) = (a.len() as int, (a.len() + t.len() - 1) as int);
    assert(s[p] == t[0] && s[q] == t.last());
    if x.len() > p {
        assert(Edge::Space.has(x[p]));
        assert(s[p] == x[p]);
    }
    if x.len() + r.len() <= q {
        let k = q - x.len() - r.len();
        assert(s[q] == y[k]);
        assert(Edge::Space.has(y[k]));
    }
}

/// A joined text is at least as long as there are places between its parts.
pub proof fn lemma_joined_len(parts: Seq<Seq<char>>, sep: char)
    ensures
        joined(parts, seq![sep]).len() + 1 >= parts.len(),
    decreases parts.len(),
{
    if parts.len() > 1 {
        lemma_joined_len(parts.drop_last(), sep);
    }
}

} // verus!
