//! Recorded mouse movements in a dump of the analytics database.

use crate::keyed::{
    filed_all, filed_onto, item_count, items_under, law_filed_onto_count, lemma_filed_split, Groups,
};
use crate::number::{decimal, to_decimal};
use crate::route::{dump_row, is_command, is_dump_command, is_table_row};
use crate::text::{
    append, begins_word, chars_of, find_text, find_word, has_prefix, has_text, has_word, is_space,
    is_whitespace, joined, law_split_undoes_join, law_word_set_off, occurs_at, pieces, split,
    starts_with, text_of, texts,
};
use flate2::read::GzDecoder;
use std::io::Read;
use vstd::prelude::*;
use vstd::utf8::encode_utf8;

verus! {

// ---------------------------------------------------------------------------
// Trusted: the crates `hex` and `flate2`
// ---------------------------------------------------------------------------

/// `hex::decode`: the bytes that pairs of hexadecimal digits stand for, the high digit first. It
/// succeeds exactly when the text has an even number of characters and all of them are hexadecimal
/// digits, in either case of letters.
#[verifier::external_body]
fn decode_hex(text: &str) -> (r: Option<Vec<u8>>)
    ensures
        match r {
            Some(bytes) => is_hex(text@) && bytes@ == hex_bytes(text@),
            None => !is_hex(text@),
        },
{
    hex::decode(text).ok()
}

/// What `GzDecoder` with `Read::read_to_string` makes of bytes: the text of their first gzip
/// member, or nothing where they hold none or where it is no text.
pub uninterp spec fn gunzipped(bytes: Seq<u8>) -> Option<Seq<char>>;

/// `GzDecoder::new` with `Read::read_to_string`: the text in compressed bytes, which depends on the
/// bytes alone. Which bytes a compressor makes of a text is left unsaid, as none is called here.
#[verifier::external_body]
fn gunzip(bytes: &Vec<u8>) -> (r: Option<String>)
    ensures
        text_view(r) == gunzipped(bytes@),
{
    let mut text = String::new();
    match GzDecoder::new(&bytes[..]).read_to_string(&mut text) {
        Ok(_) => Some(text),
        Err(_) => None,
    }
}

// ---------------------------------------------------------------------------
// Hexadecimal notation
// ---------------------------------------------------------------------------

/// The value of a hexadecimal digit.
pub open spec fn hex_digit(c: char) -> Option<nat> {
    if '0' <= c && c <= '9' {
        Some((c as nat - '0' as nat) as nat)
    } else if 'a' <= c && c <= 'f' {
        Some((c as nat - 'a' as nat + 10) as nat)
    } else if 'A' <= c && c <= 'F' {
        Some((c as nat - 'A' as nat + 10) as nat)
    } else {
        None
    }
}

/// The text is made of pairs of hexadecimal digits.
pub open spec fn is_hex(s: Seq<char>) -> bool {
    s.len() % 2 == 0 && forall|i: int| 0 <= i < s.len() ==> hex_digit(#[trigger] s[i]) is Some
}

/// The bytes that pairs of hexadecimal digits stand for.
pub open spec fn hex_bytes(s: Seq<char>) -> Seq<u8> {
    Seq::new(
        s.len() / 2,
        |i: int| (16 * hex_digit(s[2 * i])->0 + hex_digit(s[2 * i + 1])->0) as u8,
    )
}

/// The hexadecimal digit for a number below sixteen, a letter in lower case.
pub open spec fn digit_for(d: nat) -> char {
    if d < 10 {
        (d + '0' as nat) as char
    } else {
        (d - 10 + 'a' as nat) as char
    }
}

/// The hexadecimal notation of bytes, letters in lower case.
pub open spec fn hex_text(bytes: Seq<u8>) -> Seq<char> {
    Seq::new(
        2 * bytes.len(),
        |i: int|
            if i % 2 == 0 {
                digit_for(bytes[i / 2] as nat / 16)
            } else {
                digit_for(bytes[i / 2] as nat % 16)
            },
    )
}

/// A hexadecimal digit that is a letter in lower case, made a capital; any other character stays.
pub open spec fn capital(c: char) -> char {
    if 'a' <= c && c <= 'f' {
        (c as nat - 'a' as nat + 'A' as nat) as char
    } else {
        c
    }
}

/// The text with its hexadecimal digits in capitals.
pub open spec fn capitals(s: Seq<char>) -> Seq<char> {
    s.map_values(|c: char| capital(c))
}

// ---------------------------------------------------------------------------
// Lines
// ---------------------------------------------------------------------------

/// The text of a `String` that may be missing.
pub open spec fn text_view(r: Option<String>) -> Option<Seq<char>> {
    match r {
        Some(s) => Some(s@),
        None => None,
    }
}

/// A recording: a row of the dump's table of replays.
pub struct ReplayRow {
    pub replay_id: String,
    pub session_id: String,
    pub visit_id: String,
    /// The compressed events in hexadecimal notation.
    pub payload: String,
}

/// The texts of a recording.
pub struct ReplayText {
    pub replay_id: Seq<char>,
    pub session_id: Seq<char>,
    pub visit_id: Seq<char>,
    pub payload: Seq<char>,
}

impl View for ReplayRow {
    type V = ReplayText;

    open spec fn view(&self) -> ReplayText {
        ReplayText {
            replay_id: self.replay_id@,
            session_id: self.session_id@,
            visit_id: self.visit_id@,
            payload: self.payload@,
        }
    }
}

/// The view of a recording that may be missing.
pub open spec fn replay_view(r: Option<ReplayRow>) -> Option<ReplayText> {
    match r {
        Some(row) => Some(row@),
        None => None,
    }
}

/// What is behind the mark of hexadecimal notation: one backslash or two, and an x.
pub open spec fn behind_mark(s: Seq<char>) -> Option<Seq<char>> {
    if has_prefix(s, "\\\\x"@) {
        Some(s.skip(3))
    } else if has_prefix(s, "\\x"@) {
        Some(s.skip(2))
    } else {
        None
    }
}

/// The recording in a line: a row of at least six columns whose sixth is in hexadecimal notation.
pub open spec fn replay_in(line: Seq<char>) -> Option<ReplayText> {
    let columns = pieces(line, '\t');
    if is_command(line) || columns.len() < 6 {
        None
    } else {
        match behind_mark(columns[5]) {
            Some(payload) => Some(
                ReplayText {
                    replay_id: columns[0],
                    session_id: columns[2],
                    visit_id: columns[3],
                    payload,
                },
            ),
            None => None,
        }
    }
}

/// What is behind the first `n` characters.
fn behind(s: &str, n: usize) -> (r: String)
    requires
        n <= s@.len(),
    ensures
        r@ == s@.skip(n as int),
{
    let chars = chars_of(s);
    let r = text_of(&chars, n, chars.len());
    assert(r@ == s@.skip(n as int));
    r
}

/// What is behind the mark of hexadecimal notation.
pub fn strip_mark(s: &str) -> (r: Option<String>)
    ensures
        text_view(r) == behind_mark(s@),
{
    proof {
        reveal_strlit("\\\\x");
        reveal_strlit("\\x");
    }
    if starts_with(s, "\\\\x") {
        Some(behind(s, 3))
    } else if starts_with(s, "\\x") {
        Some(behind(s, 2))
    } else {
        None
    }
}

/// The recording in a line.
pub fn parse_replay(line: &str) -> (r: Option<ReplayRow>)
    ensures
        replay_view(r) == replay_in(line@),
{
    if is_dump_command(line) {
        return None;
    }
    let columns = split(line, '\t');
    let ghost all = texts(columns@);
    assert(all.len() == columns@.len());
    if columns.len() < 6 {
        return None;
    }
    assert(all[0] == columns@[0]@ && all[2] == columns@[2]@);
    assert(all[3] == columns@[3]@ && all[5] == columns@[5]@);
    match strip_mark(columns[5].as_str()) {
        Some(payload) => Some(
            ReplayRow {
                replay_id: columns[0].clone(),
                session_id: columns[2].clone(),
                visit_id: columns[3].clone(),
                payload,
            },
        ),
        None => None,
    }
}

// ---------------------------------------------------------------------------
// Payloads
// ---------------------------------------------------------------------------

/// What a payload holds.
pub open spec fn replay_json(payload: Seq<char>) -> Option<Seq<char>> {
    if is_hex(payload) {
        gunzipped(hex_bytes(payload))
    } else {
        None
    }
}

/// What a payload holds: nothing where it is not in hexadecimal notation or not compressed text.
pub fn decompress_umami_replay(payload: &str) -> (r: Option<String>)
    ensures
        text_view(r) == replay_json(payload@),
{
    match decode_hex(payload) {
        Some(bytes) => gunzip(&bytes),
        None => None,
    }
}

/// `pat` stands in `s` at `i`, and nowhere before.
pub open spec fn first_at(s: Seq<char>, pat: Seq<char>, i: int) -> bool {
    occurs_at(s, pat, i) && forall|j: int| 0 <= j < i ==> !#[trigger] occurs_at(s, pat, j)
}

/// Where `pat` first stands in `s`.
pub open spec fn first_place(s: Seq<char>, pat: Seq<char>) -> int {
    choose|i: int| first_at(s, pat, i)
}

/// What is before the first blank.
pub open spec fn before_blank(s: Seq<char>) -> Seq<char>
    decreases s.len(),
{
    if s.len() == 0 || is_space(s[0]) {
        Seq::empty()
    } else {
        seq![s[0]] + before_blank(s.drop_first())
    }
}

/// `i` is the first position at which a word of `s` begins with `pat`.
pub open spec fn first_word_at(s: Seq<char>, pat: Seq<char>, i: int) -> bool {
    begins_word(s, pat, i) && forall|j: int| 0 <= j < i ==> !#[trigger] begins_word(s, pat, j)
}

/// Where a word of `s` first begins with `pat`.
pub open spec fn first_word(s: Seq<char>, pat: Seq<char>) -> int {
    choose|i: int| first_word_at(s, pat, i)
}

/// The compressed data in a line, told by the bytes that it starts with. Without the mark of
/// hexadecimal notation they count only at the start of a word, so that they are not taken out of
/// the middle of an identifier, and only where more than 100 bytes of the line are left there.
pub open spec fn hex_payload(line: Seq<char>) -> Option<Seq<char>> {
    if has_text(line, "\\x1f8b"@) {
        Some(before_blank(line.skip(first_place(line, "\\x1f8b"@) + 2)))
    } else if has_word(line, "1f8b"@) {
        let rest = line.skip(first_word(line, "1f8b"@));
        if encode_utf8(rest).len() > 100 {
            Some(before_blank(rest))
        } else {
            None
        }
    } else {
        None
    }
}

/// What is before the first blank behind position `from`.
fn word_at(chars: &Vec<char>, from: usize) -> (r: String)
    requires
        from <= chars@.len(),
    ensures
        r@ == before_blank(chars@.skip(from as int)),
{
    let ghost s = chars@.skip(from as int);
    let mut k: usize = from;
    assert(s.take(0) == Seq::<char>::empty());
    assert(s.skip(0) == s);
    while k < chars.len() && !is_whitespace(chars[k])
        invariant
            from <= k <= chars@.len(),
            s == chars@.skip(from as int),
            before_blank(s) == s.take(k - from) + before_blank(s.skip(k - from)),
        decreases chars@.len() - k,
    {
        proof {
            let rest = s.skip(k - from);
            assert(rest[0] == chars@[k as int]);
            assert(rest.drop_first() == s.skip(k + 1 - from));
            assert(s.take(k + 1 - from) == s.take(k - from).push(s[k - from]));
            assert(s.take(k - from) + (seq![rest[0]] + before_blank(rest.drop_first())) == s.take(
                k + 1 - from,
            ) + before_blank(rest.drop_first()));
        }
        k += 1;
    }
    proof {
        let rest = s.skip(k - from);
        assert(rest.len() == 0 || rest[0] == chars@[k as int]);
        assert(s.take(k - from) + Seq::<char>::empty() == s.take(k - from));
        assert(chars@.subrange(from as int, k as int) == s.take(k - from));
    }
    text_of(chars, from, k)
}

/// The compressed data in a line.
pub fn extract_hex_payload(line: &str) -> (r: Option<String>)
    ensures
        text_view(r) == hex_payload(line@),
{
    let chars = chars_of(line);
    let n = chars.len();
    match find_text(&chars, "\\x1f8b") {
        Some(i) => {
            proof {
                reveal_strlit("\\x1f8b");
                assert(i + 2 <= n);
                lemma_first_place(line@, "\\x1f8b"@, i as int);
            }
            Some(word_at(&chars, i + 2))
        },
        None => match find_word(&chars, "1f8b") {
            Some(i) => {
                proof {
                    lemma_first_word(line@, "1f8b"@, i as int);
                }
                let rest = text_of(&chars, i, n);
                assert(rest@ == line@.skip(i as int));
                if rest.as_str().as_bytes().len() > 100 {
                    Some(word_at(&chars, i))
                } else {
                    None
                }
            },
            None => None,
        },
    }
}

proof fn lemma_first_place(s: Seq<char>, pat: Seq<char>, i: int)
    requires
        first_at(s, pat, i),
    ensures
        first_place(s, pat) == i,
        has_text(s, pat),
{
    let j = first_place(s, pat);
    assert(first_at(s, pat, j));
    assert(occurs_at(s, pat, i) && occurs_at(s, pat, j));
    if i < j {
        assert(!occurs_at(s, pat, i));
    }
}

proof fn lemma_first_word(s: Seq<char>, pat: Seq<char>, i: int)
    requires
        first_word_at(s, pat, i),
    ensures
        first_word(s, pat) == i,
        has_word(s, pat),
{
    let j = first_word(s, pat);
    assert(first_word_at(s, pat, j));
    assert(begins_word(s, pat, i) && begins_word(s, pat, j));
    if i < j {
        assert(!begins_word(s, pat, i));
    }
}

// ---------------------------------------------------------------------------
// Movements
// ---------------------------------------------------------------------------

/// What a recorded event is about. A position is of whatever type the recording has.
pub struct EventData<P> {
    pub source: Option<i32>,
    pub positions: Option<Vec<P>>,
}

/// A recorded event.
pub struct ReplayEvent<P> {
    pub event_type: i32,
    pub data: EventData<P>,
}

/// The positions of an event that is a mouse movement.
pub open spec fn moves_in<P>(e: ReplayEvent<P>) -> Seq<P> {
    if e.event_type == 3 && e.data.source == Some(1i32) && e.data.positions is Some {
        e.data.positions->0@
    } else {
        Seq::empty()
    }
}

/// The positions of all mouse movements, one after the other.
pub open spec fn all_moves<P>(s: Seq<ReplayEvent<P>>) -> Seq<P>
    decreases s.len(),
{
    if s.len() == 0 {
        Seq::empty()
    } else {
        all_moves(s.drop_last()) + moves_in(s.last())
    }
}

/// The positions of all mouse movements, one after the other.
pub fn mouse_moves<P>(events: Vec<ReplayEvent<P>>) -> (r: Vec<P>)
    ensures
        r@ == all_moves(events@),
{
    let ghost all = events@;
    let mut r: Vec<P> = Vec::new();
    assert(all.take(0) == Seq::<ReplayEvent<P>>::empty());
    for e in it: events.into_iter()
        invariant
            it.seq() == all,
            r@ == all_moves(all.take(it.index() as int)),
    {
        proof {
            let i = it.index() as int;
            assert(all.take(i + 1).drop_last() == all.take(i));
            assert(all.take(i + 1).last() == e);
        }
        let moves = e.event_type == 3 && match e.data.source {
            Some(source) => source == 1,
            None => false,
        };
        if moves {
            match e.data.positions {
                Some(positions) => {
                    let mut positions = positions;
                    r.append(&mut positions);
                },
                None => {},
            }
        }
    }
    assert(all.take(all.len() as int) == all);
    r
}

/// Positions, each with the visit that they belong to.
pub open spec fn placed<P>(visit_id: Seq<char>, moves: Seq<P>) -> Seq<(Seq<char>, P)> {
    moves.map_values(|p: P| (visit_id, p))
}

/// Adds the positions of a recording to those of its visit.
pub fn gather_moves<P>(visits: &mut Groups<P>, visit_id: &str, moves: Vec<P>)
    requires
        old(visits).wf(),
    ensures
        final(visits).wf(),
        final(visits).lists() == filed_onto(old(visits).lists(), placed(visit_id@, moves@)),
{
    let ghost all = moves@;
    let ghost pairs = placed(visit_id@, all);
    let ghost start = visits.lists();
    assert(pairs.take(0) == Seq::<(Seq<char>, P)>::empty());
    for p in it: moves.into_iter()
        invariant
            it.seq() == all,
            pairs == placed(visit_id@, all),
            visits.wf(),
            visits.lists() == filed_onto(start, pairs.take(it.index() as int)),
    {
        proof {
            let i = it.index() as int;
            assert(pairs.take(i + 1).drop_last() == pairs.take(i));
            assert(pairs.take(i + 1).last() == (visit_id@, p));
        }
        visits.file(visit_id, p);
    }
    assert(pairs.take(all.len() as int) == pairs);
}

/// The visits with at least `n` positions.
pub open spec fn visits_with<P>(s: Seq<(Seq<char>, Seq<P>)>, n: nat) -> Seq<int>
    decreases s.len(),
{
    if s.len() == 0 {
        Seq::empty()
    } else {
        let rest = visits_with(s.drop_last(), n);
        if s.last().1.len() >= n {
            rest.push(s.len() - 1)
        } else {
            rest
        }
    }
}

/// The visits with fewer positions than this are not drawn.
pub const MIN_POINTS: usize = 5;

/// The places of the visits with enough positions.
pub fn drawn_visits<P>(visits: &Groups<P>) -> (r: Vec<usize>)
    requires
        visits.wf(),
    ensures
        r@.map_values(|i: usize| i as int) == visits_with(visits.lists(), MIN_POINTS as nat),
{
    let ghost all = visits.lists();
    let mut r: Vec<usize> = Vec::new();
    let mut i: usize = 0;
    let n = visits.len();
    assert(all.take(0) == Seq::<(Seq<char>, Seq<P>)>::empty());
    assert(r@.map_values(|i: usize| i as int) == Seq::<int>::empty());
    while i < n
        invariant
            visits.wf(),
            all == visits.lists(),
            n == all.len(),
            i <= n,
            r@.map_values(|i: usize| i as int) == visits_with(
                all.take(i as int),
                MIN_POINTS as nat,
            ),
        decreases n - i,
    {
        let ghost r0 = r@;
        proof {
            assert(all.take(i + 1).drop_last() == all.take(i as int));
            assert(all.take(i + 1).last() == all[i as int]);
        }
        if visits.list(i).len() >= MIN_POINTS {
            r.push(i);
            assert(r@.map_values(|i: usize| i as int) == r0.map_values(|i: usize| i as int).push(
                i as int,
            ));
        }
        i += 1;
    }
    assert(all.take(i as int) == all);
    r
}

// ---------------------------------------------------------------------------
// Rows
// ---------------------------------------------------------------------------

/// The text with every quote doubled.
pub open spec fn doubled_quotes(s: Seq<char>) -> Seq<char>
    decreases s.len(),
{
    if s.len() == 0 {
        Seq::empty()
    } else {
        let rest = doubled_quotes(s.drop_last());
        if s.last() == '"' {
            rest.push('"').push('"')
        } else {
            rest.push(s.last())
        }
    }
}

/// The text with every quote doubled.
pub fn escape_quotes(s: &str) -> (r: String)
    ensures
        r@ == doubled_quotes(s@),
{
    let mut r = String::new();
    assert(s@.take(0) == Seq::<char>::empty());
    for c in it: s.chars()
        invariant
            it.seq() == s@,
            r@ == doubled_quotes(s@.take(it.index() as int)),
    {
        proof {
            let i = it.index() as int;
            assert(s@.take(i + 1).drop_last() == s@.take(i));
            assert(s@.take(i + 1).last() == c);
        }
        if c == '"' {
            r.push('"');
        }
        r.push(c);
    }
    assert(s@.take(s@.len() as int) == s@);
    r
}

/// The row of a recording in the table of movements.
pub open spec fn row_text(
    row: ReplayText,
    move_count: nat,
    entropy: Seq<char>,
    moves: Seq<char>,
) -> Seq<char> {
    row.replay_id + ","@ + row.session_id + ","@ + row.visit_id + ","@ + decimal(move_count) + ","@
        + entropy + ",\""@ + doubled_quotes(moves) + "\""@
}

/// The row of a recording in the table of movements, with the entropy and the movements as texts.
pub fn movement_row(row: &ReplayRow, move_count: usize, entropy: &str, moves: &str) -> (r: String)
    ensures
        r@ == row_text(row@, move_count as nat, entropy@, moves@),
{
    let mut r = append(row.replay_id.as_str(), ",");
    r.append(row.session_id.as_str());
    r.append(",");
    r.append(row.visit_id.as_str());
    r.append(",");
    r.append(to_decimal(move_count as u64).as_str());
    r.append(",");
    r.append(entropy);
    r.append(",\"");
    r.append(escape_quotes(moves).as_str());
    r.append("\"");
    r
}

// ---------------------------------------------------------------------------
// Laws
// ---------------------------------------------------------------------------

/// Hexadecimal notation takes two characters for a byte.
pub proof fn law_hex_length(s: Seq<char>)
    requires
        is_hex(s),
    ensures
        2 * hex_bytes(s).len() == s.len(),
{
}

proof fn lemma_capital(c: char, d: char)
    requires
        capital(c) == capital(d),
    ensures
        hex_digit(c) == hex_digit(d),
{
}

/// The case of the letters plays no part in hexadecimal notation: two texts that are the same in
/// capitals stand for the same bytes, and a payload holds the same in either.
pub proof fn law_case_ignored(s: Seq<char>, t: Seq<char>)
    requires
        capitals(s) == capitals(t),
    ensures
        is_hex(s) <==> is_hex(t),
        hex_bytes(s) == hex_bytes(t),
        replay_json(s) == replay_json(t),
{
    assert(s.len() == capitals(s).len() && t.len() == capitals(t).len());
    assert forall|i: int| 0 <= i < s.len() implies hex_digit(#[trigger] s[i]) == hex_digit(
        t[i],
    ) by {
        assert(capitals(s)[i] == capital(s[i]));
        assert(capitals(t)[i] == capital(t[i]));
        lemma_capital(s[i], t[i]);
    }
    assert forall|i: int| 0 <= i < t.len() implies hex_digit(#[trigger] t[i]) == hex_digit(
        s[i],
    ) by {
        assert(hex_digit(s[i]) == hex_digit(t[i]));
    }
    assert(hex_bytes(s) == hex_bytes(t));
}

/// Hexadecimal notation in capitals is read as the same in lower case.
pub proof fn law_capitals_read(s: Seq<char>)
    ensures
        replay_json(capitals(s)) == replay_json(s),
{
    assert(capitals(capitals(s)) == capitals(s)) by {
        assert forall|i: int| 0 <= i < s.len() implies capital(capital(#[trigger] s[i])) == capital(
            s[i],
        ) by {}
        assert(capitals(capitals(s)) =~= capitals(s));
    }
    law_case_ignored(capitals(s), s);
}

/// A payload of odd length, or with a character that is no hexadecimal digit, holds nothing.
pub proof fn law_bad_notation_refused(s: Seq<char>, i: int)
    requires
        s.len() % 2 == 1 || (0 <= i < s.len() && hex_digit(s[i]) is None),
    ensures
        !is_hex(s),
        replay_json(s) is None,
{
}

/// Hexadecimal notation without its last character, or with a character in it that is no
/// hexadecimal digit, holds nothing.
pub proof fn law_damaged_notation_refused(s: Seq<char>, i: int, c: char)
    requires
        is_hex(s),
        0 <= i < s.len(),
        hex_digit(c) is None,
    ensures
        replay_json(s.drop_last()) is None,
        replay_json(s.update(i, c)) is None,
        replay_json(s.insert(i, c)) is None,
{
    assert(s.update(i, c)[i] == c);
    assert(s.insert(i, c)[i] == c);
}

/// The hexadecimal notation of bytes stands for those bytes, so a payload holds what the
/// decompressor makes of the bytes that were written down, in either case of letters.
pub proof fn law_notation_undone(bytes: Seq<u8>)
    ensures
        is_hex(hex_text(bytes)),
        hex_bytes(hex_text(bytes)) == bytes,
        replay_json(hex_text(bytes)) == gunzipped(bytes),
        replay_json(capitals(hex_text(bytes))) == gunzipped(bytes),
{
    let s = hex_text(bytes);
    assert forall|i: int| 0 <= i < s.len() implies hex_digit(#[trigger] s[i]) is Some by {
        lemma_digit_for(bytes[i / 2] as nat / 16);
        lemma_digit_for(bytes[i / 2] as nat % 16);
    }
    assert forall|k: int| 0 <= k < bytes.len() implies #[trigger] hex_bytes(s)[k] == bytes[k] by {
        let b = bytes[k] as nat;
        lemma_digit_for(b / 16);
        lemma_digit_for(b % 16);
        assert((2 * k) % 2 == 0 && (2 * k) / 2 == k);
        assert((2 * k + 1) % 2 == 1 && (2 * k + 1) / 2 == k);
        assert(s[2 * k] == digit_for(b / 16));
        assert(s[2 * k + 1] == digit_for(b % 16));
        assert(16 * (b / 16) + b % 16 == b);
    }
    assert(hex_bytes(s) == bytes);
    law_capitals_read(s);
}

proof fn lemma_digit_for(d: nat)
    requires
        d < 16,
    ensures
        hex_digit(digit_for(d)) == Some(d),
{
}

/// No position of a recording is lost when it is added to its visit.
pub proof fn law_moves_kept<P>(
    visits: Seq<(Seq<char>, Seq<P>)>,
    visit_id: Seq<char>,
    moves: Seq<P>,
)
    ensures
        item_count(filed_onto(visits, placed(visit_id, moves))) == item_count(visits) + moves.len(),
{
    law_filed_onto_count(visits, placed(visit_id, moves));
}

proof fn lemma_before_blank(s: Seq<char>)
    ensures
        forall|i: int|
            0 <= i < before_blank(s).len() ==> !is_space(#[trigger] before_blank(s)[i]),
        before_blank(s).is_prefix_of(s),
    decreases s.len(),
{
    if s.len() > 0 && !is_space(s[0]) {
        let rest = s.drop_first();
        lemma_before_blank(rest);
        let r = before_blank(s);
        assert forall|i: int| 0 <= i < r.len() implies !is_space(#[trigger] r[i]) by {
            if i > 0 {
                assert(r[i] == before_blank(rest)[i - 1]);
            }
        }
        assert forall|i: int| 0 <= i < r.len() implies r[i] == s[i] by {
            if i > 0 {
                assert(r[i] == before_blank(rest)[i - 1]);
            }
        }
    }
}

/// The compressed data that is taken from a line holds no blank.
pub proof fn law_payload_unbroken(line: Seq<char>, i: int)
    requires
        hex_payload(line) matches Some(p) && 0 <= i < p.len(),
    ensures
        !is_space(hex_payload(line)->0[i]),
{
    lemma_before_blank(line.skip(first_place(line, "\\x1f8b"@) + 2));
    lemma_before_blank(line.skip(first_word(line, "1f8b"@)));
}

/// A line in which no mark of hexadecimal notation and no word begins compressed data holds none,
/// wherever else the bytes stand that it would start with.
pub proof fn law_inner_bytes_ignored(line: Seq<char>)
    requires
        !has_text(line, "\\x1f8b"@),
        forall|i: int| #[trigger]
            occurs_at(line, "1f8b"@, i) ==> i > 0 && !is_space(line[i - 1]),
    ensures
        hex_payload(line) is None,
{
}

/// Doubling the quotes keeps the quotes in pairs and everything else in place: halving them again
/// gives the text back.
pub proof fn law_quotes_undone(s: Seq<char>)
    ensures
        halved_quotes(doubled_quotes(s)) == s,
    decreases s.len(),
{
    if s.len() > 0 {
        let rest = s.drop_last();
        law_quotes_undone(rest);
        let d = doubled_quotes(rest);
        if s.last() == '"' {
            let t = d.push('"').push('"');
            assert(t.drop_last() == d.push('"'));
            assert(t.take(t.len() - 2) == d);
            assert(rest.push('"') == s);
        } else {
            let t = d.push(s.last());
            assert(t.drop_last() == d);
            assert(rest.push(s.last()) == s);
        }
    }
}

/// The text with every pair of quotes made one, as a reader of the table takes it.
pub open spec fn halved_quotes(s: Seq<char>) -> Seq<char>
    decreases s.len(),
{
    if s.len() == 0 {
        Seq::empty()
    } else if s.last() == '"' && s.len() >= 2 {
        halved_quotes(s.take(s.len() - 2)).push('"')
    } else {
        halved_quotes(s.drop_last()).push(s.last())
    }
}

/// What is behind the mark of hexadecimal notation, with one backslash or two, is taken whole, and a
/// text that begins with neither is not taken.
pub proof fn law_mark_taken_off(s: Seq<char>)
    ensures
        behind_mark("\\x"@ + s) == Some(s),
        behind_mark("\\\\x"@ + s) == Some(s),
        !"\\x"@.is_prefix_of(s) && !"\\\\x"@.is_prefix_of(s) ==> behind_mark(s) is None,
{
    reveal_strlit("\\x");
    reveal_strlit("\\\\x");
    let (one, two) = ("\\x"@ + s, "\\\\x"@ + s);
    assert(one.subrange(0, 2) == "\\x"@);
    assert(two.subrange(0, 3) == "\\\\x"@);
    assert(one.skip(2) == s);
    assert(two.skip(3) == s);
    if has_prefix(one, "\\\\x"@) {
        assert(one.subrange(0, 3)[1] == one[1]);
    }
}

/// A row of the dump is a recording exactly when it begins like no command, has at least six columns
/// and has the mark of hexadecimal notation at the start of its sixth. Its recording, session and
/// visit are its first, third and fourth column.
pub proof fn law_recording_read(columns: Seq<Seq<char>>)
    requires
        is_table_row(columns),
    ensures
        replay_in(dump_row(columns)) is Some <==> !is_command(dump_row(columns)) && columns.len() >= 6
            && ("\\x"@.is_prefix_of(columns[5]) || "\\\\x"@.is_prefix_of(columns[5])),
        replay_in(dump_row(columns)) matches Some(r) ==> r.replay_id == columns[0] && r.session_id
            == columns[2] && r.visit_id == columns[3] && (columns[5] == "\\x"@ + r.payload
            || columns[5] == "\\\\x"@ + r.payload),
{
    law_split_undoes_join(columns, '\t');
    if columns.len() >= 6 {
        let s = columns[5];
        reveal_strlit("\\x");
        reveal_strlit("\\\\x");
        law_mark_taken_off(s);
        if has_prefix(s, "\\\\x"@) {
            assert(s.subrange(0, 3) + s.skip(3) == s);
        }
        if has_prefix(s, "\\x"@) {
            assert(s.subrange(0, 2) + s.skip(2) == s);
        }
    }
}

/// What is before the first blank is the word that a text begins with, whatever is behind it.
pub proof fn law_word_before_blank(word: Seq<char>, rest: Seq<char>)
    requires
        forall|i: int| 0 <= i < word.len() ==> !is_space(#[trigger] word[i]),
        rest.len() > 0 ==> is_space(rest[0]),
    ensures
        before_blank(word + rest) == word,
    decreases word.len(),
{
    let s = word + rest;
    if word.len() == 0 {
        assert(s == rest);
    } else {
        let less = word.drop_first();
        assert forall|i: int| 0 <= i < less.len() implies !is_space(#[trigger] less[i]) by {
            assert(less[i] == word[i + 1]);
        }
        law_word_before_blank(less, rest);
        assert(s[0] == word[0]);
        assert(s.drop_first() == less + rest);
        assert(seq![word[0]] + less == word);
    }
}

/// Compressed data behind the first mark of hexadecimal notation is found wherever it stands, and
/// taken up to the next blank.
#[verifier::spinoff_prover]
pub proof fn law_marked_data_found(front: Seq<char>, word: Seq<char>, rest: Seq<char>)
    requires
        forall|j: int|
            0 <= j < front.len() ==> !#[trigger] occurs_at(
                front + "\\x1f8b"@ + word + rest,
                "\\x1f8b"@,
                j,
            ),
        forall|i: int| 0 <= i < word.len() ==> !is_space(#[trigger] word[i]),
        rest.len() > 0 ==> is_space(rest[0]),
    ensures
        hex_payload(front + "\\x1f8b"@ + word + rest) == Some("1f8b"@ + word),
{
    let mark = "\\x1f8b"@;
    let line = front + mark + word + rest;
    let i = front.len() as int;
    assert(mark.len() == 6 && mark.skip(2) == "1f8b"@) by {
        reveal_strlit("\\x1f8b");
        reveal_strlit("1f8b");
    }
    assert(line.subrange(i, i + 6) == mark);
    assert(first_at(line, mark, i));
    lemma_first_place(line, mark, i);
    let data = mark.skip(2) + word;
    assert(line.skip(i + 2) == data + rest);
    lemma_data_unbroken(word);
    law_word_before_blank(data, rest);
}

proof fn lemma_data_unbroken(word: Seq<char>)
    requires
        forall|i: int| 0 <= i < word.len() ==> !is_space(#[trigger] word[i]),
    ensures
        forall|i: int|
            0 <= i < ("1f8b"@ + word).len() ==> !is_space(#[trigger] ("1f8b"@ + word)[i]),
{
    reveal_strlit("1f8b");
    let data = "1f8b"@ + word;
    assert forall|k: int| 0 <= k < data.len() implies !is_space(#[trigger] data[k]) by {
        if k >= 4 {
            assert(data[k] == word[k - 4]);
        }
    }
}

/// Without the mark, compressed data is found where it is the first word that begins like it, and
/// taken up to the next blank, exactly when more than 100 bytes of the line are left there.
#[verifier::spinoff_prover]
pub proof fn law_bare_data_found(front: Seq<char>, word: Seq<char>, rest: Seq<char>)
    requires
        !has_text(front + "1f8b"@ + word + rest, "\\x1f8b"@),
        forall|j: int|
            0 <= j < front.len() ==> !#[trigger] begins_word(
                front + "1f8b"@ + word + rest,
                "1f8b"@,
                j,
            ),
        front.len() == 0 || is_space(front.last()),
        forall|i: int| 0 <= i < word.len() ==> !is_space(#[trigger] word[i]),
        rest.len() > 0 ==> is_space(rest[0]),
    ensures
        hex_payload(front + "1f8b"@ + word + rest) == if encode_utf8("1f8b"@ + word + rest).len()
            > 100 {
            Some("1f8b"@ + word)
        } else {
            None
        },
{
    let mark = "1f8b"@;
    let line = front + mark + word + rest;
    let i = front.len() as int;
    let back = word + rest;
    let data = mark + word;
    assert(line == front + mark + back);
    law_word_set_off(front, mark, back);
    assert(begins_word(line, mark, i));
    assert(first_word_at(line, mark, i));
    lemma_first_word(line, mark, i);
    assert(line.skip(i) == data + rest);
    lemma_data_unbroken(word);
    law_word_before_blank(data, rest);
    assert(before_blank(line.skip(first_word(line, mark))) == data);
}

/// Hexadecimal notation stands for one byte for each pair of its digits, the first digit of a pair
/// for the sixteens.
pub proof fn law_pairs_read(s: Seq<char>, i: int)
    requires
        is_hex(s),
        0 <= i < s.len() / 2,
    ensures
        s.len() % 2 == 0,
        hex_digit(s[2 * i]) is Some,
        hex_digit(s[2 * i + 1]) is Some,
        hex_digit(s[2 * i])->0 < 16,
        hex_digit(s[2 * i + 1])->0 < 16,
        hex_bytes(s)[i] == 16 * hex_digit(s[2 * i])->0 + hex_digit(s[2 * i + 1])->0,
{
    assert(hex_digit(s[2 * i]) is Some);
    assert(hex_digit(s[2 * i + 1]) is Some);
}

/// The movements of two runs of events are those of the first, then those of the second. An event
/// has its positions for movements exactly when it is of type 3, has source 1 and has positions.
pub proof fn law_movements_told<P>(a: Seq<ReplayEvent<P>>, b: Seq<ReplayEvent<P>>, e: ReplayEvent<P>)
    ensures
        all_moves(a + b) == all_moves(a) + all_moves(b),
        e.event_type == 3 && e.data.source == Some(1i32) && e.data.positions is Some ==> all_moves(
            seq![e],
        ) == e.data.positions->0@,
        e.event_type != 3 || e.data.source != Some(1i32) || e.data.positions is None ==> all_moves(
            seq![e],
        ) == Seq::<P>::empty(),
    decreases b.len(),
{
    assert(seq![e].drop_last() == Seq::<ReplayEvent<P>>::empty());
    assert(all_moves(Seq::<ReplayEvent<P>>::empty()) == Seq::<P>::empty());
    assert(all_moves(seq![e]) == moves_in(e));
    if b.len() == 0 {
        assert(a + b == a);
        assert(all_moves(a) + all_moves(b) == all_moves(a));
    } else {
        law_movements_told(a, b.drop_last(), e);
        assert((a + b).drop_last() == a + b.drop_last());
        assert((a + b).last() == b.last());
        assert(all_moves(a + b) == all_moves(a) + all_moves(b));
    }
}

/// The visits that are drawn are exactly those with five positions or more, each once and in their
/// order.
pub proof fn law_drawn_visits_told<P>(s: Seq<(Seq<char>, Seq<P>)>, i: int)
    ensures
        visits_with(s, MIN_POINTS as nat).contains(i) <==> 0 <= i < s.len() && s[i].1.len() >= 5,
        forall|a: int, b: int|
            0 <= a < b < visits_with(s, MIN_POINTS as nat).len() ==> #[trigger] visits_with(
                s,
                MIN_POINTS as nat,
            )[a] < #[trigger] visits_with(s, MIN_POINTS as nat)[b],
        forall|a: int|
            0 <= a < visits_with(s, MIN_POINTS as nat).len() ==> 0 <= #[trigger] visits_with(
                s,
                MIN_POINTS as nat,
            )[a] < s.len(),
    decreases s.len(),
{
    let r = visits_with(s, MIN_POINTS as nat);
    if s.len() > 0 {
        law_drawn_visits_told(s.drop_last(), i);
        let rest = visits_with(s.drop_last(), MIN_POINTS as nat);
        if rest.contains(i) {
            let k = choose|k: int| 0 <= k < rest.len() && rest[k] == i;
            assert(r[k] == i);
        }
        if i == s.len() - 1 && s.last().1.len() >= 5 {
            assert(r[r.len() - 1] == i);
        }
        if r.contains(i) {
            let k = choose|k: int| 0 <= k < r.len() && r[k] == i;
            if k < rest.len() {
                assert(rest[k] == i);
            }
        }
    }
}

/// The positions of a recording are put behind those that its visit has, and those of other visits
/// stay as they are.
pub proof fn law_positions_gathered<P>(
    before: Seq<(Seq<char>, P)>,
    visit_id: Seq<char>,
    moves: Seq<P>,
    other: Seq<char>,
)
    ensures
        filed_onto(filed_all(before), placed(visit_id, moves)) == filed_all(
            before + placed(visit_id, moves),
        ),
        items_under(before + placed(visit_id, moves), other) == items_under(before, other) + if other
            == visit_id {
            moves
        } else {
            Seq::empty()
        },
    decreases moves.len(),
{
    lemma_filed_split(before, placed(visit_id, moves));
    let all = before + placed(visit_id, moves);
    if moves.len() == 0 {
        assert(all == before);
        assert(items_under(before, other) + Seq::<P>::empty() == items_under(before, other));
        assert(moves == Seq::<P>::empty());
    } else {
        let rest = moves.drop_last();
        law_positions_gathered(before, visit_id, rest, other);
        assert(all.drop_last() == before + placed(visit_id, rest));
        assert(all.last() == (visit_id, moves.last()));
        assert(rest.push(moves.last()) == moves);
        assert(items_under(before, other) + rest.push(moves.last()) == (items_under(before, other)
            + rest).push(moves.last()));
    }
}

/// A row of the table of movements begins with the recording, its session and its visit, then has
/// the number of positions and the entropy, and at its end the movements in quotes.
pub proof fn law_row_in_columns(
    row: ReplayText,
    move_count: nat,
    entropy: Seq<char>,
    moves: Seq<char>,
)
    ensures
        row_text(row, move_count, entropy, moves) == joined(
            seq![row.replay_id, row.session_id, row.visit_id, decimal(move_count), entropy],
            seq![','],
        ) + ",\""@ + doubled_quotes(moves) + "\""@,
{
    reveal_strlit(",");
    let comma = seq![','];
    assert(","@ == comma);
    let (a, b, c, d, e) = (
        row.replay_id,
        row.session_id,
        row.visit_id,
        decimal(move_count),
        entropy,
    );
    reveal_with_fuel(joined, 6);
    assert(seq![a, b, c, d, e].drop_last() == seq![a, b, c, d]);
    assert(seq![a, b, c, d].drop_last() == seq![a, b, c]);
    assert(seq![a, b, c].drop_last() == seq![a, b]);
    assert(seq![a, b].drop_last() == seq![a]);
    assert(joined(seq![a, b, c, d, e], comma) == a + comma + b + comma + c + comma + d + comma + e);
}

/// The hexadecimal digits are the ten digits and the first six letters of ASCII in either case, each
/// with its own value.
pub proof fn law_hex_digits_told(c: char)
    ensures
        hex_digit(c) is Some <==> 48 <= c as nat <= 57 || 97 <= c as nat <= 102 || 65 <= c as nat
            <= 70,
        48 <= c as nat <= 57 ==> hex_digit(c) == Some((c as nat - 48) as nat),
        97 <= c as nat <= 102 ==> hex_digit(c) == Some((c as nat - 87) as nat),
        65 <= c as nat <= 70 ==> hex_digit(c) == Some((c as nat - 55) as nat),
{
}

/// Quotes are doubled one by one, and every other character stays as it is.
pub proof fn law_quotes_doubled_apart(a: Seq<char>, b: Seq<char>, c: char)
    ensures
        doubled_quotes(a + b) == doubled_quotes(a) + doubled_quotes(b),
        doubled_quotes(seq!['"']) == seq!['"', '"'],
        c != '"' ==> doubled_quotes(seq![c]) == seq![c],
    decreases b.len(),
{
    let none = Seq::<char>::empty();
    assert(seq![c].drop_last() == none);
    assert(seq!['"'].drop_last() == none);
    assert(doubled_quotes(none) == none);
    assert(doubled_quotes(seq!['"']) == seq!['"', '"']);
    assert(c != '"' ==> doubled_quotes(seq![c]) == seq![c]);
    if b.len() == 0 {
        assert(a + b == a);
        assert(doubled_quotes(a) + doubled_quotes(b) == doubled_quotes(a));
    } else {
        law_quotes_doubled_apart(a, b.drop_last(), c);
        assert((a + b).drop_last() == a + b.drop_last());
        assert((a + b).last() == b.last());
        assert(doubled_quotes(a + b) == doubled_quotes(a) + doubled_quotes(b));
    }
}

} // verus!
