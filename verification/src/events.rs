//! Whole event logs: sorted by key, parsed, turned into columns and coded,
//! and back.
use crate::bijection::Bijection;
use crate::columnar::{
    column_rows, columns_of, columns_readable, event_row, is_type_dictionary, readable, str_bytes,
    ColumnarEvents, EventsToColumns, ParsedEvent,
};
use crate::event_codec::{
    columns_accepted, columns_fit, columns_model, columns_output, columns_unframe, law_codec_roundtrip,
    CodecError, ColumnsModel, FulmicotonCodec,
};
use crate::lines::{next_sep, views};
use crate::order::{bytes_lt, lemma_bytes_lt_irreflexive, lemma_bytes_lt_total};
use crate::parse::{
    decimal_i64, decimal_text, law_name_roundtrip, rfc3339_seconds, repo_url, time_format, utc_text,
    EventKey, EventValue, ParseBijection, Repo, SLASH,
};
use vstd::prelude::*;

verus! {

/// An event as the codec takes it: its key and its value.
pub type Event = (EventKey, EventValue);

/// The key `a` at position `i` comes before the key `b` at position `j`:
/// ids by their bytes, then types by their bytes, then positions.
pub open spec fn key_before(a: EventKey, i: int, b: EventKey, j: int) -> bool {
    ||| bytes_lt(str_bytes(a.id), str_bytes(b.id))
    ||| (str_bytes(a.id) == str_bytes(b.id) && bytes_lt(str_bytes(a.event_type), str_bytes(b.event_type)))
    ||| (str_bytes(a.id) == str_bytes(b.id) && str_bytes(a.event_type) == str_bytes(b.event_type) && i < j)
}

/// `sorted` is `events` taken in the order of the positions `p`, which
/// order the events by key, events with equal keys keeping their order.
pub open spec fn sorted_by(events: Seq<Event>, sorted: Seq<Event>, p: Seq<int>) -> bool {
    &&& p.len() == events.len()
    &&& sorted.len() == events.len()
    &&& forall|i: int| 0 <= i < p.len() ==> 0 <= #[trigger] p[i] < events.len() && sorted[i] == events[p[i]]
    &&& forall|i: int, j: int|
        0 <= i < j < p.len() ==> key_before(events[#[trigger] p[i]].0, p[i], events[#[trigger] p[j]].0, p[j])
}

/// `sorted` is `events` sorted stably by key.
pub open spec fn sorted_by_key(events: Seq<Event>, sorted: Seq<Event>) -> bool {
    exists|p: Seq<int>| #[trigger] sorted_by(events, sorted, p)
}

/// The order of a key's id, type and position, as std orders the triple.
pub open spec fn triple_before(a: (String, String, usize), b: (String, String, usize)) -> bool {
    ||| bytes_lt(str_bytes(a.0), str_bytes(b.0))
    ||| (str_bytes(a.0) == str_bytes(b.0) && bytes_lt(str_bytes(a.1), str_bytes(b.1)))
    ||| (str_bytes(a.0) == str_bytes(b.0) && str_bytes(a.1) == str_bytes(b.1) && a.2 < b.2)
}

/// Calls `sort` on the vector. Claims what std documents of it: the same
/// triples come out, none after one that it comes before, strings ordered
/// by their bytes and positions as numbers.
#[verifier::external_body]
fn sort_key_positions(v: &mut Vec<(String, String, usize)>)
    ensures
        final(v)@.to_multiset() == old(v)@.to_multiset(),
        forall|i: int, j: int|
            0 <= i < j < final(v)@.len() ==> !triple_before(#[trigger] final(v)@[j], #[trigger] final(v)@[i]),
{
    v.sort();
}

/// A copy of an event.
fn copy_event(e: &Event) -> (c: Event)
    ensures
        c == *e,
{
    (
        EventKey { id: e.0.id.clone(), event_type: e.0.event_type.clone() },
        EventValue {
            repo: Repo { id: e.1.repo.id, name: e.1.repo.name.clone(), url: e.1.repo.url.clone() },
            created_at: e.1.created_at.clone(),
        },
    )
}

/// The events sorted by key, events with equal keys keeping their order.
pub fn sort_events(events: &Vec<Event>) -> (sorted: Vec<Event>)
    ensures
        sorted_by_key(events@, sorted@),
{
    let n = events.len();
    let mut t: Vec<(String, String, usize)> = Vec::new();
    let mut k: usize = 0;
    while k < n
        invariant
            n == events@.len(),
            k <= n,
            t@.len() == k,
            forall|m: int| 0 <= m < k ==> #[trigger] t@[m] == (events@[m].0.id, events@[m].0.event_type, m as usize),
        decreases n - k,
    {
        t.push((events[k].0.id.clone(), events[k].0.event_type.clone(), k));
        k += 1;
    }
    let ghost t0 = t@;
    proof {
        assert(t0.no_duplicates()) by {
            assert forall|a: int, b: int| 0 <= a < t0.len() && 0 <= b < t0.len() && a != b implies t0[a] != t0[b] by {
                assert(t0[a].2 == a && t0[b].2 == b);
            }
        }
        t0.lemma_multiset_has_no_duplicates();
    }
    sort_key_positions(&mut t);
    let ghost t1 = t@;
    proof {
        broadcast use vstd::seq_lib::group_to_multiset_ensures;
        assert(t1.len() == t0.len()) by {
            assert(t1.to_multiset().len() == t0.to_multiset().len());
        }
        assert forall|i: int| 0 <= i < t1.len() implies #[trigger] t1[i] == t0[t1[i].2 as int] && t1[i].2 < n by {
            assert(t1.to_multiset().contains(t1[i]));
            assert(t0.contains(t1[i]));
            let m = choose|m: int| 0 <= m < t0.len() && t0[m] == t1[i];
            assert(t0[m].2 == m);
        }
        t1.lemma_multiset_has_no_duplicates_conv();
    }
    let mut sorted: Vec<Event> = Vec::new();
    let ghost mut p: Seq<int> = Seq::empty();
    let mut i: usize = 0;
    while i < t.len()
        invariant
            t@ == t1,
            t1.len() == n,
            n == events@.len(),
            i <= n,
            forall|a: int| 0 <= a < t1.len() ==> #[trigger] t1[a] == t0[t1[a].2 as int] && t1[a].2 < n,
            forall|m: int| 0 <= m < n ==> #[trigger] t0[m] == (events@[m].0.id, events@[m].0.event_type, m as usize),
            p.len() == i,
            sorted@.len() == i,
            forall|a: int| 0 <= a < i ==> #[trigger] p[a] == t1[a].2 as int && sorted@[a] == events@[p[a]],
        decreases n - i,
    {
        let pos = t[i].2;
        assert(t1[i as int] == t0[pos as int]);
        sorted.push(copy_event(&events[pos]));
        proof {
            p = p.push(pos as int);
        }
        i += 1;
    }
    proof {
        assert forall|a: int, b: int| 0 <= a < b < p.len() implies key_before(
            events@[#[trigger] p[a]].0,
            p[a],
            events@[#[trigger] p[b]].0,
            p[b],
        ) by {
            let x = t1[a];
            let y = t1[b];
            assert(x == t0[x.2 as int] && y == t0[y.2 as int]);
            assert(x != y);
            assert(!triple_before(y, x));
            lemma_bytes_lt_total(str_bytes(x.0), str_bytes(y.0));
            lemma_bytes_lt_total(str_bytes(x.1), str_bytes(y.1));
        }
        assert(sorted_by(events@, sorted@, p));
    }
    sorted
}

/// `parsed` is what parsing each of `events` gives.
pub open spec fn parsed_from(events: Seq<Event>, parsed: Seq<ParsedEvent>) -> bool {
    &&& parsed.len() == events.len()
    &&& forall|i: int| 0 <= i < events.len() ==> ParseBijection::parsed_as(events[i], #[trigger] parsed[i])
}

/// Every event parses.
pub open spec fn all_parse(events: Seq<Event>) -> bool {
    forall|i: int| 0 <= i < events.len() ==> ParseBijection::parses(#[trigger] events[i])
}

/// Parses each event, or gives `None` where one does not parse.
pub fn parse_events(events: &Vec<Event>) -> (r: Option<Vec<ParsedEvent>>)
    ensures
        r is Some <==> all_parse(events@),
        r matches Some(v) ==> parsed_from(events@, v@),
{
    let mut parsed: Vec<ParsedEvent> = Vec::new();
    let mut i: usize = 0;
    while i < events.len()
        invariant
            i <= events@.len(),
            parsed@.len() == i,
            forall|k: int| 0 <= k < i ==> ParseBijection::parses(#[trigger] events@[k]),
            forall|k: int| 0 <= k < i ==> ParseBijection::parsed_as(events@[k], #[trigger] parsed@[k]),
        decreases events@.len() - i,
    {
        match ParseBijection.try_apply(&events[i]) {
            Some(e) => parsed.push(e),
            None => return None,
        }
        i += 1;
    }
    Some(parsed)
}

/// The columns of the events: sorted by key, parsed, then turned into
/// columns.
pub open spec fn events_columns(events: Seq<Event>, c: ColumnarEvents) -> bool {
    exists|sorted: Seq<Event>, parsed: Seq<ParsedEvent>|
        {
            &&& #[trigger] sorted_by_key(events, sorted)
            &&& #[trigger] parsed_from(sorted, parsed)
            &&& columns_of(parsed, c)
        }
}

/// Why the events have no columns: sorted by key, one does not parse, or
/// they hold more than 256 distinct event types.
pub open spec fn events_refused(events: Seq<Event>) -> bool {
    exists|sorted: Seq<Event>|
        {
            &&& #[trigger] sorted_by_key(events, sorted)
            &&& {
                ||| !all_parse(sorted)
                ||| exists|parsed: Seq<ParsedEvent>, d: Seq<Seq<u8>>|
                    #[trigger] parsed_from(sorted, parsed) && #[trigger] is_type_dictionary(d, parsed) && d.len() > 256
            }
        }
}

/// Sorts the events by key, parses them and turns them into columns, or
/// gives `None` where one does not parse or there are more than 256 event
/// types.
pub fn events_to_columns(events: &Vec<Event>) -> (r: Option<ColumnarEvents>)
    ensures
        r matches Some(c) ==> events_columns(events@, c),
        r is None ==> events_refused(events@),
{
    let sorted = sort_events(events);
    let parsed = match parse_events(&sorted) {
        Some(p) => p,
        None => {
            assert(sorted_by_key(events@, sorted@));
            return None;
        },
    };
    let ghost pv = parsed@;
    assert(parsed_from(sorted@, pv));
    match EventsToColumns.try_apply(parsed) {
        Some(c) => {
            assert(sorted_by_key(events@, sorted@) && parsed_from(sorted@, pv) && columns_of(pv, c));
            Some(c)
        },
        None => {
            let ghost d = choose|d: Seq<Seq<u8>>| #[trigger] is_type_dictionary(d, pv) && !(d.len() <= 256);
            assert(sorted_by_key(events@, sorted@) && parsed_from(sorted@, pv) && is_type_dictionary(d, pv)
                && d.len() > 256);
            None
        },
    }
}

/// Sorts the events by key, parses them, turns them into columns and codes
/// them; `None` where the events have no columns or a column is not taken
/// by its coder.
pub fn encode_events(events: &Vec<Event>) -> (r: Option<Vec<u8>>)
    ensures
        r matches Some(out) ==> exists|c: ColumnarEvents|
            #[trigger] events_columns(events@, c) && columns_output(c, out@),
        r is None ==> events_refused(events@) || exists|c: ColumnarEvents|
            #[trigger] events_columns(events@, c) && !columns_accepted(c),
{
    let cols = match events_to_columns(events) {
        Some(c) => c,
        None => return None,
    };
    let out = FulmicotonCodec.try_encode_columns(&cols);
    assert(events_columns(events@, cols));
    out
}

/// The rows that parsed events spell.
pub open spec fn rows_of(parsed: Seq<ParsedEvent>) -> Seq<crate::columnar::EventRow> {
    parsed.map_values(|e: ParsedEvent| event_row(e))
}

/// `written` is what writing back each event that the rows of `c` spell
/// gives.
pub open spec fn written_from(c: ColumnarEvents, written: Seq<Event>) -> bool {
    exists|parsed: Seq<ParsedEvent>|
        {
            &&& #[trigger] rows_of(parsed) == column_rows(c)
            &&& parsed.len() == written.len()
            &&& forall|i: int| 0 <= i < parsed.len() ==> ParseBijection::written_as(parsed[i], #[trigger] written[i])
        }
}

/// Why decoded columns give no events: an index leaves its dictionary, or
/// a time is outside chrono's range.
pub open spec fn rows_refused(c: ColumnarEvents) -> bool {
    ||| !columns_readable(c)
    ||| exists|parsed: Seq<ParsedEvent>, i: int|
        #[trigger] rows_of(parsed) == column_rows(c) && 0 <= i < parsed.len() && utc_text(
            #[trigger] parsed[i].created_at,
            time_format(),
        ) is None
}

/// Decodes the columns, turns them back into events, writes each back and
/// sorts them by key; an error where a list of names is not UTF-8, `None`
/// where the bytes cannot be decoded, an index leaves its dictionary or a
/// time is outside chrono's range.
pub fn decode_events(bytes: &[u8]) -> (r: Option<Result<Vec<Event>, CodecError>>)
    ensures
        columns_unframe(bytes@) is None ==> r is None,
        r matches Some(Err(e)) ==> columns_unframe(bytes@) == Some(Err::<ColumnsModel, CodecError>(e)),
        columns_unframe(bytes@) matches Some(Err(e)) ==> r == Some(Err::<Vec<Event>, CodecError>(e)),
        r is None ==> columns_unframe(bytes@) is None || exists|c: ColumnarEvents|
            columns_unframe(bytes@) == Some(Ok::<ColumnsModel, CodecError>(columns_model(c)))
                && #[trigger] rows_refused(c),
        r matches Some(Ok(v)) ==> exists|c: ColumnarEvents, written: Seq<Event>|
            {
                &&& columns_unframe(bytes@) == Some(Ok::<ColumnsModel, CodecError>(columns_model(c)))
                &&& columns_readable(c)
                &&& #[trigger] written_from(c, written)
                &&& sorted_by_key(written, v@)
            },
{
    let cols = match FulmicotonCodec.try_decode_columns(bytes) {
        None => return None,
        Some(Err(e)) => return Some(Err(e)),
        Some(Ok(c)) => c,
    };
    if !readable(&cols) {
        assert(rows_refused(cols));
        return None;
    }
    let ghost c = cols;
    let parsed = EventsToColumns.revert(cols);
    assert(rows_of(parsed@) == column_rows(c));
    let mut written: Vec<Event> = Vec::new();
    let mut i: usize = 0;
    while i < parsed.len()
        invariant
            columns_unframe(bytes@) == Some(Ok::<ColumnsModel, CodecError>(columns_model(c))),
            i <= parsed@.len(),
            written@.len() == i,
            rows_of(parsed@) == column_rows(c),
            forall|k: int| 0 <= k < i ==> ParseBijection::written_as(parsed@[k], #[trigger] written@[k]),
        decreases parsed@.len() - i,
    {
        match ParseBijection.try_revert(&parsed[i]) {
            Some(w) => written.push(w),
            None => {
                assert(rows_refused(c)) by {
                    assert(rows_of(parsed@) == column_rows(c) && 0 <= i < parsed@.len() && utc_text(
                        parsed@[i as int].created_at,
                        time_format(),
                    ) is None);
                }
                return None;
            },
        }
        i += 1;
    }
    let sorted = sort_events(&written);
    assert(rows_of(parsed@) == column_rows(c));
    assert(written_from(c, written@));
    Some(Ok(sorted))
}

// ---------------------------------------------------------------------------
// The round trip of whole event logs
// ---------------------------------------------------------------------------
/// An event that writing gives back as it was read: its id the decimal
/// that writing its value gives, a first slash in its name (if any)
/// followed by more, its page the one of its name, and its time the text
/// that chrono writes for the instant chrono reads from it.
pub open spec fn canonical_event(e: Event) -> bool {
    let name = str_bytes(e.1.repo.name);
    &&& decimal_i64(str_bytes(e.0.id)) matches Some(x) && decimal_text(x) == str_bytes(e.0.id)
    &&& next_sep(name, SLASH, 0) < name.len() ==> next_sep(name, SLASH, 0) + 1 < name.len()
    &&& e.1.repo.url@ == repo_url(e.1.repo.name@)
    &&& rfc3339_seconds(e.1.created_at@) matches Some(t) && utc_text(t, time_format()) == Some(
        e.1.created_at@,
    )
}

/// Two events with the same text in every field.
pub open spec fn same_event(a: Event, b: Event) -> bool {
    &&& a.0.id@ == b.0.id@
    &&& a.0.event_type@ == b.0.event_type@
    &&& a.1.repo.id == b.1.repo.id
    &&& a.1.repo.name@ == b.1.repo.name@
    &&& a.1.repo.url@ == b.1.repo.url@
    &&& a.1.created_at@ == b.1.created_at@
}

/// Two lists of events, the same event at each place.
pub open spec fn same_events(a: Seq<Event>, b: Seq<Event>) -> bool {
    &&& a.len() == b.len()
    &&& forall|i: int| 0 <= i < a.len() ==> same_event(#[trigger] a[i], b[i])
}

/// Strings with the same bytes are the same text.
proof fn lemma_same_bytes(a: String, b: String)
    requires
        str_bytes(a) == str_bytes(b),
    ensures
        a@ == b@,
{
    vstd::utf8::encode_utf8_decode_utf8(a@);
    vstd::utf8::encode_utf8_decode_utf8(b@);
}

/// Readable columns spell the same rows as any columns with their model,
/// which are readable too.
proof fn lemma_same_model(c: ColumnarEvents, c2: ColumnarEvents)
    requires
        columns_model(c2) == columns_model(c),
        columns_readable(c),
    ensures
        column_rows(c2) == column_rows(c),
        columns_readable(c2) == columns_readable(c),
{
    assert(c2.dict_event_types@.len() == views(c2.dict_event_types@).len());
    assert(c.dict_event_types@.len() == views(c.dict_event_types@).len());
    assert(c2.dict_repo_owners@.len() == views(c2.dict_repo_owners@).len());
    assert(c.dict_repo_owners@.len() == views(c.dict_repo_owners@).len());
    assert(c2.dict_repo_suffixes@.len() == views(c2.dict_repo_suffixes@).len());
    assert(c.dict_repo_suffixes@.len() == views(c.dict_repo_suffixes@).len());
    assert forall|i: int| 0 <= i < column_rows(c).len() implies column_rows(c2)[i] == column_rows(c)[i] by {
        let t = c.event_type_indices@[i] as int;
        let r = c.repo_indices@[i] as int;
        assert(views(c2.dict_event_types@)[t] == views(c.dict_event_types@)[t]);
        assert(views(c2.dict_repo_owners@)[r] == views(c.dict_repo_owners@)[r]);
        assert(views(c2.dict_repo_suffixes@)[r] == views(c.dict_repo_suffixes@)[r]);
    }
    assert(column_rows(c2) =~= column_rows(c));
}

/// Positions that increase, as many as there are places and each within
/// them, are the places themselves.
proof fn lemma_increasing_positions(p: Seq<int>)
    requires
        forall|i: int| 0 <= i < p.len() ==> 0 <= #[trigger] p[i] < p.len(),
        forall|i: int, j: int| 0 <= i < j < p.len() ==> #[trigger] p[i] < #[trigger] p[j],
    ensures
        forall|i: int| 0 <= i < p.len() ==> #[trigger] p[i] == i,
{
    assert forall|i: int| 0 <= i < p.len() implies #[trigger] p[i] == i by {
        lemma_positions_from_below(p, i);
        lemma_positions_from_above(p, i);
    }
}

proof fn lemma_positions_from_below(p: Seq<int>, i: int)
    requires
        0 <= i < p.len(),
        forall|k: int| 0 <= k < p.len() ==> 0 <= #[trigger] p[k] < p.len(),
        forall|a: int, b: int| 0 <= a < b < p.len() ==> #[trigger] p[a] < #[trigger] p[b],
    ensures
        p[i] >= i,
    decreases i,
{
    if i > 0 {
        lemma_positions_from_below(p, i - 1);
        assert(p[i - 1] < p[i]);
    }
}

proof fn lemma_positions_from_above(p: Seq<int>, i: int)
    requires
        0 <= i < p.len(),
        forall|k: int| 0 <= k < p.len() ==> 0 <= #[trigger] p[k] < p.len(),
        forall|a: int, b: int| 0 <= a < b < p.len() ==> #[trigger] p[a] < #[trigger] p[b],
    ensures
        p[i] <= i,
    decreases p.len() - i,
{
    if i + 1 < p.len() {
        lemma_positions_from_above(p, i + 1);
        assert(p[i] < p[i + 1]);
    }
}

/// Events already sorted by key, sorted again by key, stay in place.
proof fn lemma_sort_sorted(
    events: Seq<Event>,
    sorted: Seq<Event>,
    q: Seq<int>,
    written: Seq<Event>,
    v: Seq<Event>,
    p: Seq<int>,
)
    requires
        sorted_by(events, sorted, q),
        same_events(written, sorted),
        sorted_by(written, v, p),
    ensures
        same_events(v, sorted),
{
    let n = written.len() as int;
    assert forall|a: int, b: int| 0 <= a < b < n implies #[trigger] p[a] < #[trigger] p[b] by {
        assert(key_before(written[p[a]].0, p[a], written[p[b]].0, p[b]));
        let x = p[a];
        let y = p[b];
        if x > y {
            // sorted keys do not go down from y to x
            assert(key_before(events[q[y]].0, q[y], events[q[x]].0, q[x]));
            assert(sorted[y] == events[q[y]] && sorted[x] == events[q[x]]);
            let ix = str_bytes(written[x].0.id);
            let iy = str_bytes(written[y].0.id);
            let tx = str_bytes(written[x].0.event_type);
            let ty = str_bytes(written[y].0.event_type);
            assert(same_event(written[x], sorted[x]) && same_event(written[y], sorted[y]));
            assert(str_bytes(sorted[x].0.id) == ix && str_bytes(sorted[y].0.id) == iy);
            assert(str_bytes(sorted[x].0.event_type) == tx && str_bytes(sorted[y].0.event_type) == ty);
            lemma_bytes_lt_total(ix, iy);
            lemma_bytes_lt_total(tx, ty);
            lemma_bytes_lt_irreflexive(ix);
            lemma_bytes_lt_irreflexive(tx);
            assert(false);
        } else if x == y {
            lemma_bytes_lt_irreflexive(str_bytes(written[x].0.id));
            lemma_bytes_lt_irreflexive(str_bytes(written[x].0.event_type));
        }
    }
    lemma_increasing_positions(p);
    assert forall|i: int| 0 <= i < v.len() implies same_event(#[trigger] v[i], sorted[i]) by {
        assert(v[i] == written[p[i]]);
        assert(same_event(written[i], sorted[i]));
    }
}

/// Each event written back from the rows that its parsed form spells is
/// the event itself.
proof fn lemma_written_event(e: Event, pe: ParsedEvent, pw: ParsedEvent, w: Event)
    requires
        canonical_event(e),
        ParseBijection::parsed_as(e, pe),
        event_row(pw) == event_row(pe),
        ParseBijection::written_as(pw, w),
    ensures
        same_event(w, e),
{
    let name = str_bytes(e.1.repo.name);
    crate::parse::law_decimal_roundtrip(pe.id);
    lemma_same_bytes(w.0.id, e.0.id);
    law_name_roundtrip(name);
    assert(str_bytes(pw.repo_owner) == str_bytes(pe.repo_owner));
    assert(str_bytes(pw.repo_suffix) == str_bytes(pe.repo_suffix));
    lemma_same_bytes(w.1.repo.name, e.1.repo.name);
}

/// Decoding what the codec wrote for an event log gives the log back,
/// sorted by key with events of equal keys in their order, where every
/// event is written back as it was read (`canonical_event`) and the
/// columns fit the coders: the frame decodes to the columns, no time is
/// outside chrono's range, and the events written back from any columns
/// with that model, sorted by key, are the events sorted by key.
pub proof fn law_events_roundtrip(
    events: Seq<Event>,
    c: ColumnarEvents,
    out: Seq<u8>,
    c2: ColumnarEvents,
    written: Seq<Event>,
    v: Seq<Event>,
)
    requires
        forall|i: int| 0 <= i < events.len() ==> canonical_event(#[trigger] events[i]),
        events_columns(events, c),
        columns_accepted(c),
        columns_fit(c),
        columns_output(c, out),
        out.len() <= usize::MAX,
        columns_model(c2) == columns_model(c),
        written_from(c2, written),
        sorted_by_key(written, v),
    ensures
        columns_unframe(out) == Some(Ok::<ColumnsModel, CodecError>(columns_model(c))),
        !rows_refused(c2),
        exists|s: Seq<Event>| #[trigger] sorted_by_key(events, s) && same_events(v, s),
{
    let (sorted, parsed) = choose|sorted: Seq<Event>, parsed: Seq<ParsedEvent>|
        {
            &&& #[trigger] sorted_by_key(events, sorted)
            &&& #[trigger] parsed_from(sorted, parsed)
            &&& columns_of(parsed, c)
        };
    let q = choose|q: Seq<int>| #[trigger] sorted_by(events, sorted, q);
    law_codec_roundtrip(c, out);
    crate::columnar::law_columns_roundtrip(parsed, c);
    lemma_same_model(c, c2);
    assert(column_rows(c2) == rows_of(parsed));
    assert forall|i: int| 0 <= i < sorted.len() implies canonical_event(#[trigger] sorted[i]) by {
        assert(sorted[i] == events[q[i]]);
    }
    // no time is outside chrono's range
    assert forall|pp: Seq<ParsedEvent>, i: int|
        #[trigger] rows_of(pp) == column_rows(c2) && 0 <= i < pp.len() implies utc_text(
            #[trigger] pp[i].created_at,
            time_format(),
        ) is Some by {
        assert(rows_of(pp)[i] == rows_of(parsed)[i]);
        assert(canonical_event(sorted[i]));
        assert(ParseBijection::parsed_as(sorted[i], parsed[i]));
    }
    // the events written back are the sorted events
    let pw = choose|pw: Seq<ParsedEvent>|
        {
            &&& #[trigger] rows_of(pw) == column_rows(c2)
            &&& pw.len() == written.len()
            &&& forall|i: int| 0 <= i < pw.len() ==> ParseBijection::written_as(pw[i], #[trigger] written[i])
        };
    assert forall|i: int| 0 <= i < written.len() implies same_event(#[trigger] written[i], sorted[i]) by {
        assert(rows_of(pw)[i] == rows_of(parsed)[i]);
        assert(canonical_event(sorted[i]));
        assert(ParseBijection::parsed_as(sorted[i], parsed[i]));
        lemma_written_event(sorted[i], parsed[i], pw[i], written[i]);
    }
    let p = choose|p: Seq<int>| #[trigger] sorted_by(written, v, p);
    lemma_sort_sorted(events, sorted, q, written, v, p);
}

} // verus!
