//! Page views in a dump of the analytics database, and the paths that they make.

use crate::keyed::{
    filed, filed_all, has_key, item_count, items_under, law_filed_count, law_filed_lists, spot,
};
use crate::stamp::{
    can_normalize, is_normalizable, normalize_offset, normalized, read_time, time_millis, TimeError,
};
use crate::text::{
    all_edge, append, contains, copies, has_prefix, has_text, is_empty, is_space, joined,
    law_joined_lists, law_pieces_cut, law_split_undoes_join, law_text_found, law_trimmed_edges,
    law_trimmed_inside, law_trimmed_parts, law_whole_piece, lemma_bytes_bound,
    lemma_bytes_concat, lemma_joined_len, lemma_trimmed_covers, pieces, same_text, split,
    starts_with, texts, trim, trimmed, Edge,
};
use crate::visits::{
    categories_of, lemma_timeline, timeline, trace_of, Event, PathRules, VisitLog, WebEvent,
};
use vstd::prelude::*;
use vstd::utf8::encode_utf8;

verus! {

/// Visits with fewer events than this are left out.
pub const MIN_EVENTS: usize = 30;

/// How the dump writes points in time, once their offset has four digits.
pub const TIME_FORMAT: &'static str = "%Y-%m-%d %H:%M:%S%.f%z";

// ---------------------------------------------------------------------------
// Categories
// ---------------------------------------------------------------------------

/// A path without the blanks and quotes around it.
pub open spec fn bare_path(path: Seq<char>) -> Seq<char> {
    trimmed(trimmed(trimmed(path, Edge::Space), Edge::Only('"')), Edge::Only('\''))
}

/// A path without the blanks and quotes around it.
pub fn strip_path(path: &str) -> (r: String)
    ensures
        r@ == bare_path(path@),
{
    trim(
        trim(trim(path, Edge::Space).as_str(), Edge::Only('"')).as_str(),
        Edge::Only('\''),
    )
}

/// The first of the parts that is not empty, in brackets; where all are empty, another name.
pub open spec fn first_part(parts: Seq<Seq<char>>) -> Seq<char>
    decreases parts.len(),
{
    if parts.len() == 0 {
        "[Other]"@
    } else if parts[0].len() > 0 {
        "["@ + parts[0] + "]"@
    } else {
        first_part(parts.drop_first())
    }
}

/// The category of a path: a list, a search, a single entry, or the first part of the path.
pub open spec fn category_of(path: Seq<char>) -> Seq<char> {
    let p = bare_path(path);
    if p == "/"@ || p.len() == 0 || has_text(p, "/list"@) || has_text(p, "/t"@) {
        "[List]"@
    } else if has_text(p, "/search"@) || has_text(p, "/category"@) {
        "[Search]"@
    } else if has_text(p, "/i/"@) || has_text(p, "/post"@) {
        "[Detail]"@
    } else {
        first_part(pieces(p, '/'))
    }
}

/// The category of a path.
pub fn categorize_path(path: &str) -> (r: String)
    ensures
        r@ == category_of(path@),
{
    let p = strip_path(path);
    let p = p.as_str();
    if same_text(p, "/") || is_empty(p) || contains(p, "/list") || contains(p, "/t") {
        return "[List]".to_owned();
    }
    if contains(p, "/search") || contains(p, "/category") {
        return "[Search]".to_owned();
    }
    if contains(p, "/i/") || contains(p, "/post") {
        return "[Detail]".to_owned();
    }
    name_by_first_part(&split(p, '/'))
}

/// The first of the parts that is not empty, in brackets.
fn name_by_first_part(parts: &Vec<String>) -> (r: String)
    ensures
        r@ == first_part(texts(parts@)),
{
    let ghost all = texts(parts@);
    let mut i: usize = 0;
    assert(all.skip(0) == all);
    while i < parts.len()
        invariant
            all == texts(parts@),
            i <= parts@.len(),
            first_part(all) == first_part(all.skip(i as int)),
        decreases parts@.len() - i,
    {
        proof {
            assert(all.skip(i as int)[0] == parts@[i as int]@);
            assert(all.skip(i as int).drop_first() == all.skip(i + 1));
        }
        if !is_empty(parts[i].as_str()) {
            let mut r = append("[", parts[i].as_str());
            r.append("]");
            return r;
        }
        i += 1;
    }
    "[Other]".to_owned()
}

/// The categories of the pages of the site.
pub struct Pages;

impl PathRules for Pages {
    open spec fn category(path: Seq<char>) -> Seq<char> {
        category_of(path)
    }

    fn categorize(path: &str) -> (r: String) {
        categorize_path(path)
    }
}

// ---------------------------------------------------------------------------
// Lines
// ---------------------------------------------------------------------------

/// A page view: a row of the dump's table of events.
pub struct PageView {
    pub visit_id: String,
    pub url_path: String,
    /// When the page was viewed, as the dump writes it.
    pub created_at: String,
}

/// The texts of a page view.
pub struct PageViewText {
    pub visit_id: Seq<char>,
    pub url_path: Seq<char>,
    pub created_at: Seq<char>,
}

impl View for PageView {
    type V = PageViewText;

    open spec fn view(&self) -> PageViewText {
        PageViewText {
            visit_id: self.visit_id@,
            url_path: self.url_path@,
            created_at: self.created_at@,
        }
    }
}

/// The view of a page view that may be missing.
pub open spec fn page_view_text(v: Option<PageView>) -> Option<PageViewText> {
    match v {
        Some(p) => Some(p@),
        None => None,
    }
}

/// The line is a comment or a command of the dump, not a row of a table.
pub open spec fn is_command(line: Seq<char>) -> bool {
    has_prefix(line, "--"@) || has_prefix(line, "CREATE"@) || has_prefix(line, "ALTER"@)
        || has_prefix(line, "COPY"@)
}

/// The line is a comment or a command of the dump.
pub fn is_dump_command(line: &str) -> (r: bool)
    ensures
        r == is_command(line@),
{
    starts_with(line, "--") || starts_with(line, "CREATE") || starts_with(line, "ALTER")
        || starts_with(line, "COPY")
}

/// The page view in a line: a row of at least thirteen columns whose eleventh says that it is a
/// page view and whose thirteenth is a visit's identifier of at least 32 bytes.
pub open spec fn page_view_in(line: Seq<char>) -> Option<PageViewText> {
    let columns = pieces(line, '\t');
    if is_command(line) || trimmed(line, Edge::Space) == "\\."@ || columns.len() < 13 || trimmed(
        columns[10],
        Edge::Space,
    ) != "1"@ || encode_utf8(trimmed(columns[12], Edge::Space)).len() < 32 {
        None
    } else {
        Some(
            PageViewText {
                visit_id: trimmed(columns[12], Edge::Space),
                url_path: trimmed(columns[4], Edge::Space),
                created_at: trimmed(columns[3], Edge::Space),
            },
        )
    }
}

/// The page view in a line.
pub fn parse_page_view(line: &str) -> (r: Option<PageView>)
    ensures
        page_view_text(r) == page_view_in(line@),
{
    if is_dump_command(line) || same_text(trim(line, Edge::Space).as_str(), "\\.") {
        return None;
    }
    let columns = split(line, '\t');
    let ghost all = texts(columns@);
    assert(all.len() == columns@.len());
    if columns.len() < 13 {
        return None;
    }
    assert(all[3] == columns@[3]@ && all[4] == columns@[4]@);
    assert(all[10] == columns@[10]@ && all[12] == columns@[12]@);
    if !same_text(trim(columns[10].as_str(), Edge::Space).as_str(), "1") {
        return None;
    }
    let visit_id = trim(columns[12].as_str(), Edge::Space);
    if visit_id.as_str().as_bytes().len() < 32 {
        return None;
    }
    Some(
        PageView {
            visit_id,
            url_path: trim(columns[4].as_str(), Edge::Space),
            created_at: trim(columns[3].as_str(), Edge::Space),
        },
    )
}

// ---------------------------------------------------------------------------
// Log
// ---------------------------------------------------------------------------

/// When a page was viewed; 0 where that cannot be read.
pub open spec fn view_time(parsed: Result<i64, TimeError>) -> i64 {
    match parsed {
        Ok(t) => t,
        Err(_) => 0,
    }
}

/// What `DateTime::parse_from_str` reads from the time of a page view.
pub open spec fn stated_time(created_at: Seq<char>) -> Result<i64, TimeError> {
    time_millis(normalized(created_at), TIME_FORMAT@)
}

/// The time of the page view in a line, where there is one, can be brought into the right shape.
pub open spec fn can_read(line: Seq<char>) -> bool {
    page_view_in(line) matches Some(v) ==> can_normalize(v.created_at)
}

/// The visits after a page view was filed.
pub open spec fn with_view(
    visits: Seq<(Seq<char>, Seq<Event>)>,
    view: PageViewText,
    parsed: Result<i64, TimeError>,
) -> Seq<(Seq<char>, Seq<Event>)> {
    filed(visits, view.visit_id, (view.url_path, view_time(parsed)))
}

/// The visits after a line was read.
pub open spec fn with_line(visits: Seq<(Seq<char>, Seq<Event>)>, line: Seq<char>) -> Seq<
    (Seq<char>, Seq<Event>),
> {
    match page_view_in(line) {
        Some(v) => with_view(visits, v, stated_time(v.created_at)),
        None => visits,
    }
}

/// The time of a page view that could not be read.
pub struct BadTime {
    pub error: TimeError,
    pub text: String,
}

/// The time of the page view in a line, where there is one, can be brought into the right shape.
pub fn is_readable(line: &str) -> (r: bool)
    ensures
        r == can_read(line@),
{
    match parse_page_view(line) {
        Some(v) => is_normalizable(v.created_at.as_str()),
        None => true,
    }
}

/// Files a page view under its visit. All events together must be countable in a machine word.
pub fn file_view(log: &mut VisitLog, view: &PageView, parsed: Result<i64, TimeError>)
    requires
        old(log).wf(),
        item_count(old(log).visits()) < usize::MAX,
    ensures
        final(log).wf(),
        final(log).visits() == with_view(old(log).visits(), view@, parsed),
{
    let created_at = match parsed {
        Ok(t) => t,
        Err(_) => 0,
    };
    log.file(view.visit_id.as_str(), WebEvent { url_path: view.url_path.clone(), created_at });
}

/// Reads a line of the dump. A page view whose time cannot be read is filed all the same, and the
/// time is handed back.
pub fn read_line(log: &mut VisitLog, line: &str) -> (r: Option<BadTime>)
    requires
        old(log).wf(),
        item_count(old(log).visits()) < usize::MAX,
        can_read(line@),
    ensures
        final(log).wf(),
        final(log).visits() == with_line(old(log).visits(), line@),
        match page_view_in(line@) {
            Some(v) => match stated_time(v.created_at) {
                Ok(_) => r is None,
                Err(e) => r matches Some(b) && b.error == e && b.text@ == v.created_at,
            },
            None => r is None,
        },
{
    match parse_page_view(line) {
        Some(view) => {
            let parsed = read_time(
                normalize_offset(view.created_at.as_str()).as_str(),
                TIME_FORMAT,
            );
            file_view(log, &view, parsed);
            match parsed {
                Ok(_) => None,
                Err(error) => Some(BadTime { error, text: view.created_at }),
            }
        },
        None => None,
    }
}

// ---------------------------------------------------------------------------
// Laws
// ---------------------------------------------------------------------------

proof fn lemma_first_part_named(parts: Seq<Seq<char>>)
    ensures
        first_part(parts).len() > 0,
    decreases parts.len(),
{
    reveal_strlit("[Other]");
    reveal_strlit("[");
    if parts.len() > 0 && parts[0].len() == 0 {
        lemma_first_part_named(parts.drop_first());
    }
}

/// Every path has a category, so no event of a visit is left out of its trace.
pub proof fn law_every_path_categorized(path: Seq<char>)
    ensures
        category_of(path).len() > 0,
{
    reveal_strlit("[List]");
    reveal_strlit("[Search]");
    reveal_strlit("[Detail]");
    lemma_first_part_named(pieces(bare_path(path), '/'));
}

/// The trace of a visit has a category for each of its events.
pub proof fn law_trace_complete(events: Seq<Event>)
    ensures
        categories_of::<Pages>(events).len() == events.len(),
        forall|i: int|
            0 <= i < events.len() ==> #[trigger] categories_of::<Pages>(events)[i] == category_of(
                events[i].0,
            ),
    decreases events.len(),
{
    if events.len() > 0 {
        law_trace_complete(events.drop_last());
        law_every_path_categorized(events.last().0);
        assert forall|i: int| 0 <= i < events.len() implies #[trigger] categories_of::<Pages>(
            events,
        )[i] == category_of(events[i].0) by {
            if i < events.len() - 1 {
                assert(categories_of::<Pages>(events.drop_last())[i] == category_of(events[i].0));
            }
        }
    }
}

/// A page view makes the number of events greater by one.
pub proof fn law_views_counted(visits: Seq<(Seq<char>, Seq<Event>)>, line: Seq<char>)
    requires
        page_view_in(line) is Some,
    ensures
        item_count(with_line(visits, line)) == item_count(visits) + 1,
{
    let v = page_view_in(line)->0;
    law_filed_count(visits, v.visit_id, (v.url_path, view_time(stated_time(v.created_at))));
}

/// The visits after all lines of a dump were read.
pub open spec fn after_lines(lines: Seq<Seq<char>>) -> Seq<(Seq<char>, Seq<Event>)>
    decreases lines.len(),
{
    if lines.len() == 0 {
        Seq::empty()
    } else {
        with_line(after_lines(lines.drop_last()), lines.last())
    }
}

/// The page views in the lines of a dump, each with its visit.
pub open spec fn views_in(lines: Seq<Seq<char>>) -> Seq<(Seq<char>, Event)>
    decreases lines.len(),
{
    if lines.len() == 0 {
        Seq::empty()
    } else {
        let rest = views_in(lines.drop_last());
        match page_view_in(lines.last()) {
            Some(v) => rest.push((v.visit_id, (v.url_path, view_time(stated_time(v.created_at))))),
            None => rest,
        }
    }
}

/// After all lines were read, there is a visit for exactly the identifiers that came, and it has
/// the page views with its identifier, in the order of the lines.
pub proof fn law_visits_hold_their_views(lines: Seq<Seq<char>>, visit_id: Seq<char>)
    ensures
        after_lines(lines) == filed_all(views_in(lines)),
        has_key(after_lines(lines), visit_id) <==> items_under(views_in(lines), visit_id).len() > 0,
        has_key(after_lines(lines), visit_id) ==> after_lines(
            lines,
        )[spot(after_lines(lines), visit_id)].1 == items_under(views_in(lines), visit_id),
{
    lemma_lines_filed(lines);
    law_filed_lists(views_in(lines), visit_id);
}

proof fn lemma_lines_filed(lines: Seq<Seq<char>>)
    ensures
        after_lines(lines) == filed_all(views_in(lines)),
    decreases lines.len(),
{
    if lines.len() > 0 {
        lemma_lines_filed(lines.drop_last());
        match page_view_in(lines.last()) {
            Some(v) => {
                let rest = views_in(lines.drop_last());
                let pair = (v.visit_id, (v.url_path, view_time(stated_time(v.created_at))));
                assert(rest.push(pair).drop_last() == rest);
            },
            None => {},
        }
    }
}

/// A line that is no page view leaves the visits as they are.
pub proof fn law_other_lines_ignored(visits: Seq<(Seq<char>, Seq<Event>)>, line: Seq<char>)
    requires
        page_view_in(line) is None,
    ensures
        with_line(visits, line) == visits,
{
}

/// A line is a command of the dump exactly when it begins like one.
pub proof fn law_commands_told(line: Seq<char>, rest: Seq<char>)
    ensures
        is_command("--"@ + rest),
        is_command("CREATE"@ + rest),
        is_command("ALTER"@ + rest),
        is_command("COPY"@ + rest),
        is_command(line) ==> "--"@.is_prefix_of(line) || "CREATE"@.is_prefix_of(line)
            || "ALTER"@.is_prefix_of(line) || "COPY"@.is_prefix_of(line),
{
    let none = Seq::<char>::empty();
    law_text_found(none, "--"@, rest);
    law_text_found(none, "CREATE"@, rest);
    law_text_found(none, "ALTER"@, rest);
    law_text_found(none, "COPY"@, rest);
}

/// The columns of a row, one after the other with tabs between them.
pub open spec fn dump_row(columns: Seq<Seq<char>>) -> Seq<char> {
    joined(columns, seq!['\t'])
}

/// There are columns, and none holds a tab.
pub open spec fn is_table_row(columns: Seq<Seq<char>>) -> bool {
    &&& columns.len() > 0
    &&& forall|i: int| 0 <= i < columns.len() ==> !(#[trigger] columns[i]).contains('\t')
}

proof fn lemma_row_parts(columns: Seq<Seq<char>>) -> (r: (Seq<char>, Seq<char>))
    requires
        columns.len() >= 13,
    ensures
        r.0 == dump_row(columns.take(12)) + seq!['\t'],
        r.0.len() >= 12,
        dump_row(columns) == r.0 + columns[12] + r.1,
{
    let tab = seq!['\t'];
    let (a, b) = (columns.take(12), columns.skip(12));
    assert(columns == a + b);
    law_joined_lists(a, b, tab);
    lemma_joined_len(a, '\t');
    let front = dump_row(a) + tab;
    if columns.len() == 13 {
        assert(joined(b, tab) == columns[12]);
        assert(dump_row(columns) == front + columns[12] + Seq::<char>::empty());
        (front, Seq::empty())
    } else {
        let (c, d) = (seq![columns[12]], columns.skip(13));
        assert(b == c + d);
        law_joined_lists(c, d, tab);
        assert(joined(c, tab) == columns[12]);
        let back = tab + joined(d, tab);
        assert(dump_row(columns) == front + columns[12] + back);
        (front, back)
    }
}

proof fn lemma_no_end_mark(columns: Seq<Seq<char>>)
    requires
        columns.len() >= 13,
        encode_utf8(trimmed(columns[12], Edge::Space)).len() >= 32,
    ensures
        trimmed(dump_row(columns), Edge::Space) != "\\."@,
{
    let id = trimmed(columns[12], Edge::Space);
    let (front, back) = lemma_row_parts(columns);
    let (x, y) = law_trimmed_parts(columns[12], Edge::Space);
    law_trimmed_edges(columns[12], Edge::Space);
    lemma_bytes_bound(id);
    assert(front + columns[12] + back == (front + x) + id + (y + back));
    lemma_trimmed_covers(front + x, id, y + back);
    reveal_strlit("\\.");
}

/// A row of the dump is a page view exactly when it begins like no command, has at least thirteen
/// columns, says 1 in its eleventh, and has at least 32 bytes in its thirteenth, blanks aside. Its
/// visit, path and time are what stands in the thirteenth, fifth and fourth column, without the
/// blanks around it.
pub proof fn law_page_view_read(columns: Seq<Seq<char>>)
    requires
        is_table_row(columns),
    ensures
        page_view_in(dump_row(columns)) is Some <==> !is_command(dump_row(columns)) && columns.len()
            >= 13 && trimmed(columns[10], Edge::Space) == "1"@ && encode_utf8(
            trimmed(columns[12], Edge::Space),
        ).len() >= 32,
        page_view_in(dump_row(columns)) matches Some(v) ==> v.visit_id == trimmed(
            columns[12],
            Edge::Space,
        ) && v.url_path == trimmed(columns[4], Edge::Space) && v.created_at == trimmed(
            columns[3],
            Edge::Space,
        ),
{
    law_split_undoes_join(columns, '\t');
    if columns.len() >= 13 && encode_utf8(trimmed(columns[12], Edge::Space)).len() >= 32 {
        lemma_no_end_mark(columns);
    }
}

/// A row that is a page view remains one when its visit's identifier is made longer by characters
/// that are no blanks, and only its visit changes.
pub proof fn law_longer_id_accepted(columns: Seq<Seq<char>>, more: Seq<char>)
    requires
        is_table_row(columns),
        page_view_in(dump_row(columns)) is Some,
        forall|i: int| 0 <= i < more.len() ==> !is_space(#[trigger] more[i]),
    ensures
        ({
            let v = page_view_in(dump_row(columns))->0;
            let longer = columns.update(12, v.visit_id + more);
            page_view_in(dump_row(longer)) == Some(
                PageViewText {
                    visit_id: v.visit_id + more,
                    url_path: v.url_path,
                    created_at: v.created_at,
                },
            )
        }),
{
    law_page_view_read(columns);
    let id = trimmed(columns[12], Edge::Space);
    let grown = id + more;
    let longer = columns.update(12, grown);
    law_trimmed_edges(columns[12], Edge::Space);
    lemma_bytes_bound(id);
    let (x, y) = law_trimmed_parts(columns[12], Edge::Space);
    assert(!grown.contains('\t')) by {
        assert forall|i: int| 0 <= i < grown.len() implies grown[i] != '\t' by {
            if i < id.len() {
                assert(columns[12][x.len() + i] == id[i]);
            } else {
                assert(!is_space(more[i - id.len()]));
            }
        }
    }
    assert forall|i: int| 0 <= i < longer.len() implies !(#[trigger] longer[i]).contains('\t') by {
        if i != 12 {
            assert(longer[i] == columns[i]);
        }
    }
    let none = Seq::<char>::empty();
    assert(!Edge::Space.has(grown.last())) by {
        if more.len() > 0 {
            assert(grown.last() == more[more.len() - 1]);
        } else {
            assert(grown == id);
        }
    }
    assert(none + grown + none == grown);
    law_trimmed_inside(none, grown, none, Edge::Space);
    lemma_bytes_concat(id, more);
    let (front, back) = lemma_row_parts(columns);
    let (front2, back2) = lemma_row_parts(longer);
    assert(columns.take(12) == longer.take(12));
    lemma_command_by_start(front, columns[12] + back, grown + back2);
    assert(front + (columns[12] + back) == front + columns[12] + back);
    assert(front + (grown + back2) == front + grown + back2);
    law_page_view_read(longer);
    assert(longer[10] == columns[10] && longer[4] == columns[4] && longer[3] == columns[3]);
}

proof fn lemma_command_by_start(front: Seq<char>, a: Seq<char>, b: Seq<char>)
    requires
        front.len() >= 12,
    ensures
        is_command(front + a) == is_command(front + b),
{
    reveal_strlit("--");
    reveal_strlit("CREATE");
    reveal_strlit("ALTER");
    reveal_strlit("COPY");
    assert((front + a).subrange(0, 2) == (front + b).subrange(0, 2));
    assert((front + a).subrange(0, 6) == (front + b).subrange(0, 6));
    assert((front + a).subrange(0, 5) == (front + b).subrange(0, 5));
    assert((front + a).subrange(0, 4) == (front + b).subrange(0, 4));
}

/// A page view is filed under its visit with its path and its time, and with 0 where its time
/// cannot be read.
pub proof fn law_view_filed(
    visits: Seq<(Seq<char>, Seq<Event>)>,
    view: PageViewText,
    time: i64,
    error: TimeError,
)
    ensures
        with_view(visits, view, Ok(time)) == filed(
            visits,
            view.visit_id,
            (view.url_path, time),
        ),
        with_view(visits, view, Err(error)) == filed(visits, view.visit_id, (view.url_path, 0i64)),
{
}

/// Blanks around a path, then double quotes, then single quotes, play no part in it.
pub proof fn law_wrapping_ignored(
    blanks: Seq<char>,
    doubles: Seq<char>,
    singles: Seq<char>,
    path: Seq<char>,
)
    requires
        all_edge(blanks, Edge::Space),
        all_edge(doubles, Edge::Only('"')),
        all_edge(singles, Edge::Only('\'')),
        path.len() > 0,
        !is_space(path[0]) && path[0] != '"' && path[0] != '\'',
        !is_space(path.last()) && path.last() != '"' && path.last() != '\'',
    ensures
        bare_path(blanks + (doubles + (singles + path + singles) + doubles) + blanks) == path,
{
    let inner = singles + path + singles;
    let middle = doubles + inner + doubles;
    if singles.len() > 0 {
        assert(Edge::Only('\'').has(singles[0]));
        assert(Edge::Only('\'').has(singles[singles.len() - 1]));
        assert(inner[0] == singles[0] && inner.last() == singles[singles.len() - 1]);
    } else {
        assert(inner == path);
    }
    if doubles.len() > 0 {
        assert(Edge::Only('"').has(doubles[0]));
        assert(Edge::Only('"').has(doubles[doubles.len() - 1]));
        assert(middle[0] == doubles[0] && middle.last() == doubles[doubles.len() - 1]);
    } else {
        assert(middle == inner);
    }
    law_trimmed_inside(blanks, middle, blanks, Edge::Space);
    law_trimmed_inside(doubles, inner, doubles, Edge::Only('"'));
    law_trimmed_inside(singles, path, singles, Edge::Only('\''));
}

/// A path with the mark of a list anywhere in it, the root and nothing are lists, whatever else the
/// path holds.
pub proof fn law_list_paths(path: Seq<char>, a: Seq<char>, b: Seq<char>)
    requires
        bare_path(path) == "/"@ || bare_path(path).len() == 0 || bare_path(path) == a + "/list"@ + b
            || bare_path(path) == a + "/t"@ + b,
    ensures
        category_of(path) == "[List]"@,
{
    law_text_found(a, "/list"@, b);
    law_text_found(a, "/t"@, b);
}

/// The path is that of a list.
pub open spec fn has_list_mark(p: Seq<char>) -> bool {
    p == "/"@ || p.len() == 0 || has_text(p, "/list"@) || has_text(p, "/t"@)
}

/// A path that is none of a list is one of a search where it has the mark of a search or a category
/// anywhere in it.
pub proof fn law_search_paths(path: Seq<char>, a: Seq<char>, b: Seq<char>)
    requires
        !has_list_mark(bare_path(path)),
        bare_path(path) == a + "/search"@ + b || bare_path(path) == a + "/category"@ + b,
    ensures
        category_of(path) == "[Search]"@,
{
    law_text_found(a, "/search"@, b);
    law_text_found(a, "/category"@, b);
}

/// A path of neither a list nor a search is one of an entry where it has the mark of one anywhere in
/// it.
pub proof fn law_entry_paths(path: Seq<char>, a: Seq<char>, b: Seq<char>)
    requires
        !has_list_mark(bare_path(path)),
        !has_text(bare_path(path), "/search"@),
        !has_text(bare_path(path), "/category"@),
        bare_path(path) == a + "/i/"@ + b || bare_path(path) == a + "/post"@ + b,
    ensures
        category_of(path) == "[Detail]"@,
{
    law_text_found(a, "/i/"@, b);
    law_text_found(a, "/post"@, b);
}

proof fn lemma_first_part_behind(empty: Seq<Seq<char>>, rest: Seq<Seq<char>>)
    requires
        forall|i: int| 0 <= i < empty.len() ==> (#[trigger] empty[i]).len() == 0,
    ensures
        first_part(empty + rest) == first_part(rest),
    decreases empty.len(),
{
    if empty.len() == 0 {
        assert(empty + rest == rest);
    } else {
        let less = empty.drop_first();
        assert forall|i: int| 0 <= i < less.len() implies (#[trigger] less[i]).len() == 0 by {
            assert(less[i] == empty[i + 1]);
        }
        lemma_first_part_behind(less, rest);
        assert((empty + rest)[0] == empty[0]);
        assert((empty + rest).drop_first() == less + rest);
    }
}

proof fn lemma_slashes(n: nat)
    ensures
        pieces(copies('/', n), '/').len() == n + 1,
        forall|i: int| 0 <= i <= n ==> (#[trigger] pieces(copies('/', n), '/')[i]).len() == 0,
    decreases n,
{
    let s = copies('/', n);
    if n > 0 {
        lemma_slashes((n - 1) as nat);
        assert(s.drop_last() == copies('/', (n - 1) as nat));
        assert(s.last() == '/');
    } else {
        assert(s == Seq::<char>::empty());
    }
}

/// A path without any mark has the name of its first part that is not empty for a category, whatever
/// is behind it; slashes alone have another.
pub proof fn law_other_paths(path: Seq<char>, slashes: nat, part: Seq<char>, rest: Seq<char>)
    requires
        !has_list_mark(bare_path(path)),
        !has_text(bare_path(path), "/search"@),
        !has_text(bare_path(path), "/category"@),
        !has_text(bare_path(path), "/i/"@),
        !has_text(bare_path(path), "/post"@),
        !part.contains('/'),
        bare_path(path) == copies('/', slashes) + part || bare_path(path) == copies('/', slashes)
            + part.push('/') + rest,
        part.len() == 0 ==> bare_path(path) == copies('/', slashes) + part,
    ensures
        part.len() > 0 ==> category_of(path) == "["@ + part + "]"@,
        part.len() == 0 ==> category_of(path) == "[Other]"@,
{
    let p = bare_path(path);
    let all = pieces(p, '/');
    lemma_slashes(slashes);
    if part.len() == 0 {
        assert(p == copies('/', slashes));
        let none = Seq::<Seq<char>>::empty();
        assert(all + none == all);
        lemma_first_part_behind(all, none);
    } else {
        law_whole_piece(part, '/');
        let tail = if p == copies('/', slashes) + part {
            Seq::<Seq<char>>::empty()
        } else {
            pieces(rest, '/')
        };
        let back = if p == copies('/', slashes) + part {
            part
        } else {
            part.push('/') + rest
        };
        assert(p == copies('/', slashes) + back);
        if p != copies('/', slashes) + part {
            law_pieces_cut(part, '/', rest);
        }
        assert(pieces(back, '/') == seq![part] + tail);
        if slashes == 0 {
            assert(p == back);
            assert(all[0] == part);
        } else {
            let less = (slashes - 1) as nat;
            lemma_slashes(less);
            assert(copies('/', slashes) == copies('/', less).push('/'));
            law_pieces_cut(copies('/', less), '/', back);
            let empty = pieces(copies('/', less), '/');
            lemma_first_part_behind(empty, pieces(back, '/'));
            assert(pieces(back, '/')[0] == part);
        }
    }
}

/// Every visit of thirty or more page views is followed, and none of fewer.
pub proof fn law_thirty_views_followed(visit_id: Seq<char>, events: Seq<Event>)
    ensures
        trace_of::<Pages>(visit_id, events, MIN_EVENTS as nat) is Some <==> events.len() >= 30,
{
    lemma_timeline(events);
    law_trace_complete(timeline(events));
}

/// A line of the dump that is a page view is filed under its visit with its path and the time that
/// it states, once the offset of that time is in shape; with 0 where the time cannot be read.
pub proof fn law_line_filed(visits: Seq<(Seq<char>, Seq<Event>)>, line: Seq<char>)
    requires
        page_view_in(line) is Some,
    ensures
        ({
            let v = page_view_in(line)->0;
            let time = match time_millis(
                normalized(v.created_at),
                "%Y-%m-%d %H:%M:%S%.f%z"@,
            ) {
                Ok(t) => t,
                Err(_) => 0i64,
            };
            with_line(visits, line) == filed(visits, v.visit_id, (v.url_path, time))
        }),
{
}

/// A line can be read unless it is a page view whose time cannot be brought into shape.
pub proof fn law_lines_readable(line: Seq<char>)
    ensures
        page_view_in(line) is None ==> can_read(line),
        page_view_in(line) matches Some(v) ==> (can_read(line) <==> can_normalize(v.created_at)),
{
}

} // verus!
