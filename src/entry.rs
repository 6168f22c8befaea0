//! Headings: the record parsed from one block of lines (a heading line and
//! the lines up to the next heading), and the split of a file into blocks.
use vstd::prelude::*;
use crate::stamp::{
    double_dash, joined_span, joined_timerange_chars, next_prefix_timerange_chars, opt_span_result, parse_date_str, parse_timerange,
    prefixed_span, range_span, stamp_span, well_formed_result, TimeRange, Timestamp, ParseError,
};
use crate::text::{find_from, find_seq, occurs_at, slice, split_on, to_chars, views};

verus! {

/// The state keyword of a heading.
#[derive(Clone, Copy, Debug, PartialEq, Eq, Structural)]
pub enum State {
    Unmarked,
    Todo,
    Done,
}

pub open spec fn str_views(v: Seq<String>) -> Seq<Seq<char>> {
    v.map_values(|x: String| x@)
}

/// Number of leading `*` characters.
pub open spec fn leading_stars(s: Seq<char>) -> nat
    decreases s.len(),
{
    if s.len() > 0 && s[0] == '*' {
        1 + leading_stars(s.drop_first())
    } else {
        0
    }
}

/// A heading line: at least one marker, and something left after the
/// markers and one separator.
pub open spec fn is_titled(s: Seq<char>) -> bool {
    leading_stars(s) >= 1 && s.len() > leading_stars(s) + 1
}

/// The text after the markers and the separator.
pub open spec fn head_text(s: Seq<char>) -> Seq<char> {
    s.subrange(leading_stars(s) + 1int, s.len() as int)
}

pub open spec fn starts_with(s: Seq<char>, p: Seq<char>) -> bool {
    p.len() <= s.len() && s.subrange(0, p.len() as int) == p
}

pub open spec fn todo_keyword() -> Seq<char> {
    seq!['T', 'O', 'D', 'O', ' ']
}

pub open spec fn done_keyword() -> Seq<char> {
    seq!['D', 'O', 'N', 'E', ' ']
}

pub open spec fn state_of(t: Seq<char>) -> State {
    if starts_with(t, todo_keyword()) {
        State::Todo
    } else if starts_with(t, done_keyword()) {
        State::Done
    } else {
        State::Unmarked
    }
}

/// The text after the state keyword, if any.
pub open spec fn after_state(t: Seq<char>) -> Seq<char> {
    if state_of(t) != State::Unmarked {
        t.subrange(5, t.len() as int)
    } else {
        t
    }
}

/// Where the last space-delimited word of `t` begins.
pub open spec fn word_start(t: Seq<char>) -> int
    decreases t.len(),
{
    if t.len() == 0 {
        0
    } else if t.last() == ' ' {
        t.len() as int
    } else {
        word_start(t.drop_last())
    }
}

pub open spec fn last_word(t: Seq<char>) -> Seq<char> {
    t.subrange(word_start(t), t.len() as int)
}

/// The text ends with a tag list: a last word that starts and ends with `:`.
pub open spec fn has_tags(t: Seq<char>) -> bool {
    t.len() > 0 && t.last() == ':' && last_word(t)[0] == ':'
}

pub open spec fn trim_end_spaces(t: Seq<char>) -> Seq<char>
    decreases t.len(),
{
    if t.len() > 0 && t.last() == ' ' {
        trim_end_spaces(t.drop_last())
    } else {
        t
    }
}

pub open spec fn keep_nonempty(ps: Seq<Seq<char>>) -> Seq<Seq<char>>
    decreases ps.len(),
{
    if ps.len() == 0 {
        Seq::empty()
    } else {
        let r = keep_nonempty(ps.drop_last());
        if ps.last().len() > 0 {
            r.push(ps.last())
        } else {
            r
        }
    }
}

/// The title: the text without its tag list and the spaces before it.
pub open spec fn title_of(t: Seq<char>) -> Seq<char> {
    if has_tags(t) {
        trim_end_spaces(t.subrange(0, word_start(t)))
    } else {
        t
    }
}

/// The tags: the non-empty `:`-separated pieces of the tag list.
pub open spec fn tags_of(t: Seq<char>) -> Seq<Seq<char>> {
    if has_tags(t) {
        keep_nonempty(split_on(last_word(t), ':'))
    } else {
        Seq::empty()
    }
}

/// A heading whose text (after its markers and state keyword) does not end
/// with `:` has no tags, and its title is that text unchanged.
pub proof fn untagged_heading_keeps_title(line: Seq<char>)
    requires
        is_titled(line),
        !(after_state(head_text(line)).len() > 0 && after_state(head_text(line)).last() == ':'),
    ensures
        tags_of(after_state(head_text(line))) == Seq::<Seq<char>>::empty(),
        title_of(after_state(head_text(line))) == after_state(head_text(line)),
{
}

proof fn word_start_bounds(t: Seq<char>)
    ensures
        0 <= word_start(t) <= t.len(),
        word_start(t) > 0 ==> t[word_start(t) - 1] == ' ',
    decreases t.len(),
{
    if t.len() > 0 && t.last() != ' ' {
        word_start_bounds(t.drop_last());
    }
}

/// Number of leading `*` characters of `fc`.
fn count_stars(fc: &Vec<char>) -> (level: usize)
    ensures
        level == leading_stars(fc@),
        level <= fc@.len(),
{
    let n = fc.len();
    let mut level: usize = 0;
    assert(fc@.subrange(0, n as int) =~= fc@);
    while level < n && fc[level] == '*'
        invariant
            n == fc@.len(),
            level <= n,
            leading_stars(fc@) == level + leading_stars(fc@.subrange(level as int, n as int)),
        decreases n - level,
    {
        assert(fc@.subrange(level as int, n as int).drop_first() =~= fc@.subrange(
            level + 1,
            n as int,
        ));
        level += 1;
    }
    level
}

/// Where the last word of `fc[ts..]` begins, as an index of `fc`.
fn find_word_start(fc: &Vec<char>, ts: usize) -> (ws: usize)
    requires
        ts < fc@.len(),
        fc@.last() != ' ',
    ensures
        ts <= ws < fc@.len(),
        ws - ts == word_start(fc@.subrange(ts as int, fc@.len() as int)),
{
    let n = fc.len();
    let ghost t = fc@.subrange(ts as int, n as int);
    let mut ws: usize = n - 1;
    assert(t.drop_last() =~= t.subrange(0, ws - ts));
    while ws > ts && fc[ws - 1] != ' '
        invariant
            ts <= ws < n == fc@.len(),
            t == fc@.subrange(ts as int, n as int),
            word_start(t) == word_start(t.subrange(0, ws - ts)),
        decreases ws,
    {
        assert(t.subrange(0, ws - ts).drop_last() =~= t.subrange(0, ws - 1 - ts));
        ws -= 1;
    }
    ws
}

/// The end of `fc[ts..ws]` without its trailing spaces.
fn trim_spaces_end(fc: &Vec<char>, ts: usize, ws: usize) -> (te: usize)
    requires
        ts <= ws <= fc@.len(),
    ensures
        ts <= te <= ws,
        fc@.subrange(ts as int, te as int) == trim_end_spaces(fc@.subrange(ts as int, ws as int)),
{
    let mut te: usize = ws;
    while te > ts && fc[te - 1] == ' '
        invariant
            ts <= te <= ws <= fc@.len(),
            trim_end_spaces(fc@.subrange(ts as int, ws as int)) == trim_end_spaces(
                fc@.subrange(ts as int, te as int),
            ),
        decreases te,
    {
        assert(fc@.subrange(ts as int, te as int).drop_last() =~= fc@.subrange(
            ts as int,
            te - 1,
        ));
        te -= 1;
    }
    te
}

/// The heading line split into level, state keyword, title and tags; `None`
/// where the line has no marker or nothing after its markers and one
/// separator.
pub fn parse_heading_line(first: &str) -> (r: Option<(usize, State, String, Vec<String>)>)
    ensures
        r is None <==> !is_titled(first@),
        r matches Some((level, state, title, tags)) ==> {
            &&& level == leading_stars(first@)
            &&& state == state_of(head_text(first@))
            &&& title@ == title_of(after_state(head_text(first@)))
            &&& str_views(tags@) == tags_of(after_state(head_text(first@)))
        },
{
    let fc = to_chars(first);
    let n = fc.len();
    let level = count_stars(&fc);
    if level == 0 || n - level <= 1 {
        return None;
    }
    let ghost head = head_text(fc@);
    let todo: Vec<char> = vec!['T', 'O', 'D', 'O', ' '];
    let done: Vec<char> = vec!['D', 'O', 'N', 'E', ' '];
    assert(todo@ =~= todo_keyword());
    assert(done@ =~= done_keyword());
    let t0 = level + 1;
    let room = n >= 5 && t0 <= n - 5;
    let is_todo = room && occurs_at(&fc, &todo, t0);
    let is_done = !is_todo && room && occurs_at(&fc, &done, t0);
    proof {
        if room {
            assert(head.subrange(0, 5) =~= fc@.subrange(t0 as int, t0 + 5));
        }
    }
    let state = if is_todo {
        State::Todo
    } else if is_done {
        State::Done
    } else {
        State::Unmarked
    };
    let ts: usize = if is_todo || is_done {
        t0 + 5
    } else {
        t0
    };
    let ghost t = fc@.subrange(ts as int, n as int);
    assert(t =~= after_state(head));
    proof {
        word_start_bounds(t);
    }
    let mut tags: Vec<String> = Vec::new();
    let mut te: usize = n;
    if n > ts && fc[n - 1] == ':' {
        let ws = find_word_start(&fc, ts);
        if fc[ws] == ':' {
            assert(last_word(t) =~= fc@.subrange(ws as int, n as int));
            assert(t.subrange(0, word_start(t)) =~= fc@.subrange(ts as int, ws as int));
            te = trim_spaces_end(&fc, ts, ws);
            tags = collect_tags(first, &fc, ws);
        } else {
            assert(last_word(t)[0] == fc@[ws as int]);
        }
    }
    proof {
        if !has_tags(t) {
            assert(fc@.subrange(ts as int, te as int) =~= t);
        }
    }
    let title = first.substring_char(ts, te).to_owned();
    assert(title@ =~= title_of(t));
    Some((level, state, title, tags))
}

/// The non-empty `:`-separated pieces of `first[ws..]`.
fn collect_tags(first: &str, fc: &Vec<char>, ws: usize) -> (tags: Vec<String>)
    requires
        fc@ == first@,
        ws <= fc@.len(),
    ensures
        str_views(tags@) == keep_nonempty(split_on(fc@.subrange(ws as int, fc@.len() as int), ':')),
{
    let n = fc.len();
    let ghost w = fc@.subrange(ws as int, n as int);
    let mut tags: Vec<String> = Vec::new();
    let ghost mut done: Seq<Seq<char>> = Seq::empty();
    let mut start: usize = ws;
    let mut j: usize = ws;
    assert(w.subrange(0, 0) =~= Seq::<char>::empty());
    assert(fc@.subrange(ws as int, ws as int) =~= Seq::<char>::empty());
    assert(done.push(fc@.subrange(ws as int, ws as int)) =~= seq![Seq::<char>::empty()]);
    while j < n
        invariant
            n == fc@.len(),
            fc@ == first@,
            w == fc@.subrange(ws as int, n as int),
            ws <= start <= j <= n,
            split_on(w.subrange(0, j - ws), ':') == done.push(fc@.subrange(start as int, j as int)),
            str_views(tags@) == keep_nonempty(done),
        decreases n - j,
    {
        let ghost pre = w.subrange(0, j - ws);
        assert(w.subrange(0, j + 1 - ws).drop_last() =~= pre);
        assert(w.subrange(0, j + 1 - ws).last() == fc@[j as int]);
        if fc[j] == ':' {
            let ghost piece = fc@.subrange(start as int, j as int);
            if j > start {
                let tag = first.substring_char(start, j).to_owned();
                tags.push(tag);
                assert(str_views(tags@) =~= keep_nonempty(done).push(piece));
            }
            proof {
                let nd = done.push(piece);
                assert(nd.drop_last() =~= done);
                done = nd;
            }
            start = j + 1;
            assert(fc@.subrange(start as int, j + 1) =~= Seq::<char>::empty());
        } else {
            assert(fc@.subrange(start as int, j + 1) =~= fc@.subrange(start as int, j as int).push(
                fc@[j as int],
            ));
            assert(done.push(fc@.subrange(start as int, j + 1)) =~= done.push(
                fc@.subrange(start as int, j as int),
            ).update(done.len() as int, fc@.subrange(start as int, j as int).push(fc@[j as int])));
        }
        j += 1;
    }
    assert(w.subrange(0, n - ws) =~= w);
    let ghost last = fc@.subrange(start as int, n as int);
    assert(done.push(last).drop_last() =~= done);
    if n > start {
        let tag = first.substring_char(start, n).to_owned();
        tags.push(tag);
        assert(str_views(tags@) =~= keep_nonempty(done).push(last));
    }
    tags
}

/// One task or event record.
#[derive(Clone, Debug)]
pub struct Heading {
    pub title: String,
    pub level: usize,
    pub state: State,
    pub tags: Vec<String>,
    pub scheduled: Option<TimeRange>,
    pub deadline: Option<TimeRange>,
    pub logged: Vec<TimeRange>,
    pub logged_active: Option<Timestamp>,
    pub timestamps: Vec<TimeRange>,
}

pub open spec fn span_seq(v: Seq<TimeRange>) -> Seq<(int, int)> {
    v.map_values(|t: TimeRange| t.bounds())
}

pub open spec fn all_wf(v: Seq<TimeRange>) -> bool {
    forall|i: int| 0 <= i < v.len() ==> #[trigger] v[i].wf()
}

pub open spec fn opt_bounds(o: Option<TimeRange>) -> Option<(int, int)> {
    match o {
        Some(t) => Some(t.bounds()),
        None => None,
    }
}

pub open spec fn opt_secs(o: Option<Timestamp>) -> Option<int> {
    match o {
        Some(t) => Some(t.secs as int),
        None => None,
    }
}

pub open spec fn error_of<T>(r: Result<T, ParseError>) -> Option<ParseError> {
    match r {
        Ok(_) => None,
        Err(e) => Some(e),
    }
}

pub open spec fn scheduled_prefix() -> Seq<char> {
    seq!['S', 'C', 'H', 'E', 'D', 'U', 'L', 'E', 'D', ':', ' ']
}

pub open spec fn deadline_prefix() -> Seq<char> {
    seq!['D', 'E', 'A', 'D', 'L', 'I', 'N', 'E', ':', ' ']
}

pub open spec fn clock_prefix() -> Seq<char> {
    seq!['C', 'L', 'O', 'C', 'K', ':', ' ']
}

pub open spec fn properties_marker() -> Seq<char> {
    seq![':', 'P', 'R', 'O', 'P', 'E', 'R', 'T', 'I', 'E', 'S', ':']
}

pub open spec fn logbook_marker() -> Seq<char> {
    seq![':', 'L', 'O', 'G', 'B', 'O', 'O', 'K', ':']
}

pub open spec fn end_marker() -> Seq<char> {
    seq![':', 'E', 'N', 'D', ':']
}

/// The stamp after `prefix` on the line below the heading line, if there is
/// such a line.
pub open spec fn planning_span(ls: Seq<Seq<char>>, prefix: Seq<char>) -> Result<
    Option<(int, int)>,
    ParseError,
> {
    if ls.len() >= 2 {
        prefixed_span(ls[1], prefix)
    } else {
        Ok(None)
    }
}

/// The line after the planning line: it is consumed where it held a
/// scheduled or deadline stamp.
pub open spec fn planning_end(ls: Seq<Seq<char>>) -> int {
    if ls.len() >= 2 && (planning_span(ls, scheduled_prefix()) matches Ok(Some(_))
        || planning_span(ls, deadline_prefix()) matches Ok(Some(_))) {
        2
    } else {
        1
    }
}

/// The first `:END:` line at or after `from`, or the number of lines.
pub open spec fn end_from(ls: Seq<Seq<char>>, from: int) -> int
    decreases ls.len() - from,
{
    if from < 0 || from >= ls.len() {
        ls.len() as int
    } else if ls[from] == end_marker() {
        from
    } else {
        end_from(ls, from + 1)
    }
}

/// The line after a drawer named `name` that opens at `at` (after its
/// `:END:`, or at the end of the block); `at` where no such drawer opens.
pub open spec fn drawer_end(ls: Seq<Seq<char>>, at: int, name: Seq<char>) -> int {
    if 0 <= at < ls.len() && ls[at] == name {
        let k = end_from(ls, at + 1);
        if k < ls.len() {
            k + 1
        } else {
            k
        }
    } else {
        at
    }
}

pub open spec fn properties_end(ls: Seq<Seq<char>>) -> int {
    drawer_end(ls, planning_end(ls), properties_marker())
}

pub open spec fn has_logbook(ls: Seq<Seq<char>>) -> bool {
    0 <= properties_end(ls) < ls.len() && ls[properties_end(ls)] == logbook_marker()
}

pub open spec fn logbook_end(ls: Seq<Seq<char>>) -> int {
    drawer_end(ls, properties_end(ls), logbook_marker())
}

/// One logbook line folded into the closed entries and the open one.
pub open spec fn clock_step(line: Seq<char>, acc: (Seq<(int, int)>, Option<int>)) -> Result<
    (Seq<(int, int)>, Option<int>),
    ParseError,
> {
    if starts_with(line, clock_prefix()) {
        if find_from(line, double_dash(), 0) is Some {
            match joined_span(line.subrange(7, line.len() as int)) {
                Ok(Some(t)) => Ok((acc.0.push(t), acc.1)),
                Ok(None) => Ok(acc),
                Err(e) => Err(e),
            }
        } else {
            match stamp_span(line.subrange(7, line.len() as int)) {
                Ok(sp) => Ok((acc.0, Some(sp.0))),
                Err(e) => Err(e),
            }
        }
    } else {
        Ok(acc)
    }
}

/// The closed entries and the last open entry of lines `from..to`.
pub open spec fn clock_fold(ls: Seq<Seq<char>>, from: int, to: int) -> Result<
    (Seq<(int, int)>, Option<int>),
    ParseError,
>
    decreases to - from,
{
    if to <= from {
        Ok((Seq::empty(), None))
    } else {
        match clock_fold(ls, from, to - 1) {
            Err(e) => Err(e),
            Ok(acc) => clock_step(ls[to - 1], acc),
        }
    }
}

/// What the logbook of the block records.
pub open spec fn logbook_of(ls: Seq<Seq<char>>) -> Result<(Seq<(int, int)>, Option<int>), ParseError> {
    if has_logbook(ls) {
        clock_fold(ls, properties_end(ls) + 1, end_from(ls, properties_end(ls) + 1))
    } else {
        Ok((Seq::empty(), None))
    }
}

/// The texts in `line` of the shape `<dddd...>`, optionally followed by
/// `--<dddd...>`, leftmost first and without overlap.
pub uninterp spec fn loose_stamp_matches(line: Seq<char>) -> Seq<Seq<char>>;

/// Relies on the regex crate's `Regex::new` and `Regex::find_iter` with the
/// pattern `(<\d{4}[^>]+>)(--<\d{4}[^>]+>)?`: the matched texts, in order.
#[verifier::external_body]
fn find_loose_stamps(line: &str) -> (r: Vec<String>)
    ensures
        str_views(r@) == loose_stamp_matches(line@),
{
    let re = regex::Regex::new(r"(<\d{4}[^>]+>)(--<\d{4}[^>]+>)?").unwrap();
    re.find_iter(line).map(|m| m.as_str().to_string()).collect()
}

/// The spans of the stamp texts `ms`, in order; the first error among them.
pub open spec fn spans_of(ms: Seq<Seq<char>>) -> Result<Seq<(int, int)>, ParseError>
    decreases ms.len(),
{
    if ms.len() == 0 {
        Ok(Seq::empty())
    } else {
        match spans_of(ms.drop_last()) {
            Err(e) => Err(e),
            Ok(v) => match range_span(ms.last()) {
                Ok(t) => Ok(v.push(t)),
                Err(e) => Err(e),
            },
        }
    }
}

/// The loose stamps of lines `from..to`, in order.
pub open spec fn loose_fold(ls: Seq<Seq<char>>, from: int, to: int) -> Result<
    Seq<(int, int)>,
    ParseError,
>
    decreases to - from,
{
    if to <= from {
        Ok(Seq::empty())
    } else {
        match loose_fold(ls, from, to - 1) {
            Err(e) => Err(e),
            Ok(v) => match spans_of(loose_stamp_matches(ls[to - 1])) {
                Ok(w) => Ok(v + w),
                Err(e) => Err(e),
            },
        }
    }
}

/// The loose stamps of the lines after the logbook.
pub open spec fn loose_of(ls: Seq<Seq<char>>) -> Result<Seq<(int, int)>, ParseError> {
    loose_fold(ls, logbook_end(ls), ls.len() as int)
}

/// The first error met in parsing a titled block, in line order.
#[verifier::opaque]
pub open spec fn block_error(ls: Seq<Seq<char>>) -> Option<ParseError> {
    if error_of(planning_span(ls, scheduled_prefix())) is Some {
        error_of(planning_span(ls, scheduled_prefix()))
    } else if error_of(planning_span(ls, deadline_prefix())) is Some {
        error_of(planning_span(ls, deadline_prefix()))
    } else if error_of(logbook_of(ls)) is Some {
        error_of(logbook_of(ls))
    } else {
        error_of(loose_of(ls))
    }
}

/// `h` is the record of the titled, error-free block `ls`.
#[verifier::opaque]
pub open spec fn describes(h: Heading, ls: Seq<Seq<char>>) -> bool {
    let text = after_state(head_text(ls[0]));
    &&& h.level == leading_stars(ls[0])
    &&& h.state == state_of(head_text(ls[0]))
    &&& h.title@ == title_of(text)
    &&& str_views(h.tags@) == tags_of(text)
    &&& planning_span(ls, scheduled_prefix()) == Ok::<_, ParseError>(opt_bounds(h.scheduled))
    &&& planning_span(ls, deadline_prefix()) == Ok::<_, ParseError>(opt_bounds(h.deadline))
    &&& logbook_of(ls) == Ok::<_, ParseError>((span_seq(h.logged@), opt_secs(h.logged_active)))
    &&& loose_of(ls) == Ok::<_, ParseError>(span_seq(h.timestamps@))
    &&& (h.scheduled matches Some(t) ==> t.wf())
    &&& (h.deadline matches Some(t) ==> t.wf())
    &&& all_wf(h.logged@)
    &&& all_wf(h.timestamps@)
}

fn chars_equal(a: &Vec<char>, b: &Vec<char>) -> (r: bool)
    ensures
        r == (a@ == b@),
{
    if a.len() != b.len() {
        return false;
    }
    let r = occurs_at(a, b, 0);
    assert(a@.subrange(0, b@.len() as int) =~= a@);
    r
}

fn line_views(entry: &Vec<String>) -> (ls: Vec<Vec<char>>)
    ensures
        views(ls@) == str_views(entry@),
{
    let mut ls: Vec<Vec<char>> = Vec::new();
    let mut i: usize = 0;
    while i < entry.len()
        invariant
            i <= entry@.len(),
            ls@.len() == i,
            forall|j: int| 0 <= j < i ==> #[trigger] ls@[j]@ == entry@[j]@,
        decreases entry@.len() - i,
    {
        let l = to_chars(entry[i].as_str());
        ls.push(l);
        i += 1;
    }
    assert(views(ls@) =~= str_views(entry@));
    ls
}

/// The first `:END:` line at or after `from`, or the number of lines.
fn find_end(ls: &Vec<Vec<char>>, from: usize) -> (k: usize)
    ensures
        k == end_from(views(ls@), from as int),
        from <= ls@.len() ==> from <= k,
        k <= ls@.len(),
{
    let end: Vec<char> = vec![':', 'E', 'N', 'D', ':'];
    assert(end@ =~= end_marker());
    let mut k: usize = from;
    while k < ls.len()
        invariant
            from <= k,
            end@ == end_marker(),
            end_from(views(ls@), from as int) == end_from(views(ls@), k as int),
        decreases ls@.len() - k,
    {
        assert(views(ls@)[k as int] == ls@[k as int]@);
        if chars_equal(&ls[k], &end) {
            return k;
        }
        k += 1;
    }
    ls.len()
}

/// The line after a drawer named `name` that opens at `at`.
fn skip_drawer(ls: &Vec<Vec<char>>, at: usize, name: &Vec<char>) -> (r: usize)
    requires
        at <= ls@.len(),
    ensures
        r == drawer_end(views(ls@), at as int, name@),
        at <= r <= ls@.len(),
{
    if at < ls.len() {
        assert(views(ls@)[at as int] == ls@[at as int]@);
        if chars_equal(&ls[at], name) {
            let k = find_end(ls, at + 1);
            if k < ls.len() {
                return k + 1;
            }
            return k;
        }
    }
    at
}

/// The closed entries and the last open entry of logbook lines `from..to`.
fn read_logbook(ls: &Vec<Vec<char>>, from: usize, to: usize) -> (r: Result<
    (Vec<TimeRange>, Option<Timestamp>),
    ParseError,
>)
    requires
        from <= to <= ls@.len(),
    ensures
        match r {
            Ok((logged, active)) => clock_fold(views(ls@), from as int, to as int) == Ok::<
                _,
                ParseError,
            >((span_seq(logged@), opt_secs(active))) && all_wf(logged@),
            Err(e) => clock_fold(views(ls@), from as int, to as int) == Err::<
                (Seq<(int, int)>, Option<int>),
                _,
            >(e),
        },
{
    let clock: Vec<char> = vec!['C', 'L', 'O', 'C', 'K', ':', ' '];
    let dd: Vec<char> = vec!['-', '-'];
    assert(clock@ =~= clock_prefix());
    assert(dd@ =~= double_dash());
    let mut logged: Vec<TimeRange> = Vec::new();
    let mut active: Option<Timestamp> = None;
    let mut i: usize = from;
    assert(span_seq(logged@) =~= Seq::<(int, int)>::empty());
    while i < to
        invariant
            from <= i <= to <= ls@.len(),
            clock@ == clock_prefix(),
            dd@ == double_dash(),
            clock_fold(views(ls@), from as int, i as int) == Ok::<_, ParseError>(
                (span_seq(logged@), opt_secs(active)),
            ),
            all_wf(logged@),
        decreases to - i,
    {
        let l = &ls[i];
        assert(views(ls@)[i as int] == l@);
        if l.len() >= 7 && occurs_at(l, &clock, 0) {
            assert(l@.subrange(0, 7) == clock_prefix());
            if find_seq(l, &dd, 0).is_some() {
                let n = l.len();
                let rest = slice(l, 7, n);
                match joined_timerange_chars(&rest) {
                    Ok(Some(t)) => {
                        let ghost prev = logged@;
                        logged.push(t);
                        assert(logged@.drop_last() =~= prev);
                        assert(span_seq(logged@) =~= span_seq(prev).push(t.bounds()));
                    },
                    Ok(None) => {},
                    Err(e) => {
                        proof {
                            clock_fold_error_stays(views(ls@), from as int, i + 1, to as int);
                        }
                        return Err(e);
                    },
                }
            } else {
                let n = l.len();
                let rest = slice(l, 7, n);
                match parse_date_str(&rest) {
                    Ok((a, _b)) => {
                        active = Some(Timestamp { secs: a });
                    },
                    Err(e) => {
                        proof {
                            clock_fold_error_stays(views(ls@), from as int, i + 1, to as int);
                        }
                        return Err(e);
                    },
                }
            }
        }
        i += 1;
    }
    Ok((logged, active))
}

proof fn clock_fold_error_stays(ls: Seq<Seq<char>>, from: int, mid: int, to: int)
    requires
        from <= mid <= to,
        clock_fold(ls, from, mid) is Err,
    ensures
        clock_fold(ls, from, to) == clock_fold(ls, from, mid),
    decreases to - mid,
{
    if to > mid {
        clock_fold_error_stays(ls, from, mid, to - 1);
    }
}

proof fn loose_fold_error_stays(ls: Seq<Seq<char>>, from: int, mid: int, to: int)
    requires
        from <= mid <= to,
        loose_fold(ls, from, mid) is Err,
    ensures
        loose_fold(ls, from, to) == loose_fold(ls, from, mid),
    decreases to - mid,
{
    if to > mid {
        loose_fold_error_stays(ls, from, mid, to - 1);
    }
}

/// The spans of the stamp texts `ms` (as the loose-stamp scan finds them),
/// in order; the first error among them.
pub fn parse_loose_stamps(ms: &Vec<String>) -> (r: Result<Vec<TimeRange>, ParseError>)
    ensures
        match r {
            Ok(v) => spans_of(str_views(ms@)) == Ok::<_, ParseError>(span_seq(v@)) && all_wf(v@),
            Err(e) => spans_of(str_views(ms@)) == Err::<Seq<(int, int)>, _>(e),
        },
{
    let mut v: Vec<TimeRange> = Vec::new();
    let mut i: usize = 0;
    assert(str_views(ms@.subrange(0, 0)) =~= Seq::<Seq<char>>::empty());
    assert(span_seq(v@) =~= Seq::<(int, int)>::empty());
    while i < ms.len()
        invariant
            i <= ms@.len(),
            spans_of(str_views(ms@.subrange(0, i as int))) == Ok::<_, ParseError>(span_seq(v@)),
            all_wf(v@),
        decreases ms@.len() - i,
    {
        let ghost pre = str_views(ms@.subrange(0, i as int));
        assert(str_views(ms@.subrange(0, i + 1)).drop_last() =~= pre);
        assert(str_views(ms@.subrange(0, i + 1)).last() == ms@[i as int]@);
        match parse_timerange(ms[i].as_str()) {
            Ok(t) => {
                let ghost prev = v@;
                v.push(t);
                assert(v@.drop_last() =~= prev);
                assert(span_seq(v@) =~= span_seq(prev).push(t.bounds()));
            },
            Err(e) => {
                proof {
                    spans_error_stays(str_views(ms@), i + 1);
                    assert(str_views(ms@).subrange(0, i + 1) =~= str_views(ms@.subrange(0, i + 1)));
                }
                return Err(e);
            },
        }
        i += 1;
    }
    assert(ms@.subrange(0, ms@.len() as int) =~= ms@);
    Ok(v)
}

proof fn spans_error_stays(ms: Seq<Seq<char>>, k: int)
    requires
        0 <= k <= ms.len(),
        spans_of(ms.subrange(0, k)) is Err,
    ensures
        spans_of(ms) == spans_of(ms.subrange(0, k)),
    decreases ms.len() - k,
{
    if k < ms.len() {
        assert(ms.subrange(0, k + 1).drop_last() =~= ms.subrange(0, k));
        spans_error_stays(ms, k + 1);
    } else {
        assert(ms.subrange(0, k) =~= ms);
    }
}

/// The loose stamps of lines `from..` of `entry`, in order.
fn read_loose(entry: &Vec<String>, from: usize) -> (r: Result<Vec<TimeRange>, ParseError>)
    requires
        from <= entry@.len(),
    ensures
        match r {
            Ok(v) => loose_fold(str_views(entry@), from as int, entry@.len() as int) == Ok::<
                _,
                ParseError,
            >(span_seq(v@)) && all_wf(v@),
            Err(e) => loose_fold(str_views(entry@), from as int, entry@.len() as int) == Err::<
                Seq<(int, int)>,
                _,
            >(e),
        },
{
    let mut v: Vec<TimeRange> = Vec::new();
    let mut i: usize = from;
    assert(span_seq(v@) =~= Seq::<(int, int)>::empty());
    while i < entry.len()
        invariant
            from <= i <= entry@.len(),
            loose_fold(str_views(entry@), from as int, i as int) == Ok::<_, ParseError>(
                span_seq(v@),
            ),
            all_wf(v@),
        decreases entry@.len() - i,
    {
        let ms = find_loose_stamps(entry[i].as_str());
        assert(str_views(entry@)[i as int] == entry@[i as int]@);
        match parse_loose_stamps(&ms) {
            Ok(w) => {
                let ghost prev = v@;
                let mut w = w;
                let ghost wv = w@;
                v.append(&mut w);
                assert(span_seq(v@) =~= span_seq(prev) + span_seq(wv));
                assert forall|j: int| 0 <= j < v@.len() implies #[trigger] v@[j].wf() by {
                    if j >= prev.len() {
                        assert(v@[j] == wv[j - prev.len()]);
                    }
                }
            },
            Err(e) => {
                proof {
                    loose_fold_error_stays(str_views(entry@), from as int, i + 1, entry@.len() as int);
                }
                return Err(e);
            },
        }
        i += 1;
    }
    Ok(v)
}

/// Parses one block of lines (a heading line and the lines below it up to
/// the next heading) into a heading record. `Ok(None)` where the block is
/// empty or its first line is no titled heading line; the first
/// malformed stamp, in line order, is the error.
pub fn parse_single_org_entry(entry: &Vec<String>) -> (r: Result<Option<Heading>, ParseError>)
    ensures
        str_views(entry@).len() == 0 || !is_titled(str_views(entry@)[0]) ==> r matches Ok(None),
        str_views(entry@).len() > 0 && is_titled(str_views(entry@)[0]) ==> match block_error(
            str_views(entry@),
        ) {
            Some(e) => r == Err::<Option<Heading>, ParseError>(e),
            None => r matches Ok(Some(h)) && describes(h, str_views(entry@)),
        },
{
    reveal(block_error);
    reveal(describes);
    if entry.len() == 0 {
        return Ok(None);
    }
    assert(str_views(entry@)[0] == entry@[0]@);
    let (level, state, title, tags) = match parse_heading_line(entry[0].as_str()) {
        None => {
            return Ok(None);
        },
        Some(x) => x,
    };
    let ls = line_views(entry);
    let ghost lv = views(ls@);
    assert(lv == str_views(entry@));
    let n = ls.len();
    let sp: Vec<char> = vec!['S', 'C', 'H', 'E', 'D', 'U', 'L', 'E', 'D', ':', ' '];
    let dp: Vec<char> = vec!['D', 'E', 'A', 'D', 'L', 'I', 'N', 'E', ':', ' '];
    let props: Vec<char> = vec![':', 'P', 'R', 'O', 'P', 'E', 'R', 'T', 'I', 'E', 'S', ':'];
    let logbook: Vec<char> = vec![':', 'L', 'O', 'G', 'B', 'O', 'O', 'K', ':'];
    assert(sp@ =~= scheduled_prefix());
    assert(dp@ =~= deadline_prefix());
    assert(props@ =~= properties_marker());
    assert(logbook@ =~= logbook_marker());
    if n >= 2 {
        assert(lv[1] == ls@[1]@);
    }
    let scheduled = if n >= 2 {
        next_prefix_timerange_chars(&ls[1], &sp)?
    } else {
        None
    };
    let deadline = if n >= 2 {
        next_prefix_timerange_chars(&ls[1], &dp)?
    } else {
        None
    };
    let planned: usize = if n >= 2 && (scheduled.is_some() || deadline.is_some()) {
        2
    } else {
        1
    };
    assert(planned == planning_end(lv));
    let after_props = skip_drawer(&ls, planned, &props);
    assert(after_props == properties_end(lv));
    let mut logged: Vec<TimeRange> = Vec::new();
    let mut logged_active: Option<Timestamp> = None;
    let mut after_log: usize = after_props;
    if after_props < n {
        assert(lv[after_props as int] == ls@[after_props as int]@);
    }
    if after_props < n && chars_equal(&ls[after_props], &logbook) {
        let k = find_end(&ls, after_props + 1);
        let (lg, ac) = read_logbook(&ls, after_props + 1, k)?;
        logged = lg;
        logged_active = ac;
        after_log = if k < n {
            k + 1
        } else {
            k
        };
    } else {
        assert(span_seq(logged@) =~= Seq::<(int, int)>::empty());
    }
    assert(after_log == logbook_end(lv));
    let timestamps = read_loose(entry, after_log)?;
    let h = Heading {
        title,
        level,
        state,
        tags,
        scheduled,
        deadline,
        logged,
        logged_active,
        timestamps,
    };
    Ok(Some(h))
}

} // verus!
