//! The feed parsers: column extraction, the line parsers of the route, stop
//! and arrival feeds, and the chunk-by-chunk folds that build the indices.

use crate::feed::{body_lines, scan_buffer, scan_lines, LineFold};
use crate::localtime::{local_seconds_to_utc, local_seconds_to_utc_iso};
use crate::models::{
    rc_share, Arrival, ArrivalTable, ArrivalTableView, ArrivalView, RouteData, RouteDataView,
    RouteGroup, RouteGroupView, RouteMap, RouteMapView, StopArrival, StopArrivalView,
    StopArrivals, StopArrivalsView, StopData, StopDataView, StopMap, StopMapView,
};
use crate::ordered::{
    assoc_get, assoc_has, assoc_put, lemma_key_index, lemma_value_replaced, OrdMap,
};
use crate::scan::{
    column, column_end, columns_after, first_delim, first_occurrence, lemma_first_column,
    lemma_first_delim, lemma_first_occurrence, lemma_first_occurrence_is, lemma_split_step,
    occurrence_from, occurs_at, seek_after, split, split_slices, COMMA, NEWLINE, SEMICOLON,
};
use crate::services::{ParsingUpstreamError, ParsingUpstreamErrorView, TransportService};
use crate::text::{
    decimal_u32, decode, decode_trimmed, is_blank, lemma_ascii_text, parse_u32, present_or,
    text_of, trimmed, trimmed_text_of,
};
use crate::wellformed::{
    lemma_arrival_table_wf, lemma_route_fold_wf, lemma_route_map_put_wf, lemma_set_put_wf,
    lemma_stop_fold_wf, lemma_table_put_wf, lemma_type_fold_wf, route_map_wf, stop_map_wf,
    table_wf,
};
use std::rc::Rc;
use vstd::prelude::*;
use vstd::slice::slice_subrange;
use vstd::utf8::{decode_utf8, valid_utf8};

pub use crate::localtime::seconds_from_midnight_to_utc_iso;
pub use crate::scan::{col_at_memchr_bytes, slices_view};

verus! {

/// The bytes of `input` without one trailing line feed, if it ends in one.
pub open spec fn without_trailing_newline(input: Seq<u8>) -> Seq<u8> {
    if input.len() > 0 && input.last() == NEWLINE {
        input.drop_last()
    } else {
        input
    }
}

/// Strips at most one trailing line feed.
pub fn remove_trailing_newline(input: &[u8]) -> (out: &[u8])
    ensures
        out@ == without_trailing_newline(input@),
{
    let n: usize = input.len();
    if n > 0 && input[n - 1] == NEWLINE {
        slice_subrange(input, 0, n - 1)
    } else {
        input
    }
}

/// The texts that `pieces` encode, or `None` when one of them is not valid
/// UTF-8.
pub open spec fn texts_of(pieces: Seq<Seq<u8>>) -> Option<Seq<Seq<char>>> {
    if forall|i: int| 0 <= i < pieces.len() ==> valid_utf8(#[trigger] pieces[i]) {
        Some(Seq::new(pieces.len(), |i: int| decode_utf8(pieces[i])))
    } else {
        None
    }
}

/// The entries of a comma-separated list in which a trailing comma ends the
/// last entry instead of starting an empty one: the pieces between commas,
/// without the last piece when it is empty.
pub open spec fn list_entries(s: Seq<u8>) -> Seq<Seq<u8>> {
    let pieces = split(s, COMMA);
    if pieces.last().len() == 0 {
        pieces.drop_last()
    } else {
        pieces
    }
}

/// Decodes the comma-separated pieces of `input`, in order; with
/// `keep_empty_tail` unset an empty last piece is left out.
fn decode_pieces(input: &[u8], keep_empty_tail: bool) -> (r: Option<Vec<String>>)
    ensures
        r.deep_view() == texts_of(
            if keep_empty_tail {
                split(input@, COMMA)
            } else {
                list_entries(input@)
            },
        ),
{
    let pieces = split_slices(input, COMMA);
    let ghost all = split(input@, COMMA);
    proof {
        lemma_split_step(input@, COMMA);
        assert(pieces@.len() == slices_view(pieces@).len());
        assert(all.last() == pieces@[pieces@.len() - 1]@);
    }
    let count: usize = if !keep_empty_tail && pieces[pieces.len() - 1].len() == 0 {
        pieces.len() - 1
    } else {
        pieces.len()
    };
    let ghost wanted = if keep_empty_tail {
        all
    } else {
        list_entries(input@)
    };
    proof {
        assert(wanted =~= all.take(count as int));
    }
    let mut parts: Vec<String> = Vec::new();
    let mut i: usize = 0;
    while i < count
        invariant
            i <= count <= pieces@.len(),
            slices_view(pieces@) == all,
            wanted == all.take(count as int),
            wanted == if keep_empty_tail {
                split(input@, COMMA)
            } else {
                list_entries(input@)
            },
            parts@.len() == i,
            forall|j: int| 0 <= j < i ==> valid_utf8(#[trigger] wanted[j]),
            forall|j: int| 0 <= j < i ==> (#[trigger] parts@[j])@ == decode_utf8(wanted[j]),
        decreases count - i,
    {
        proof {
            assert(wanted[i as int] == pieces@[i as int]@) by {
                assert(all[i as int] == slices_view(pieces@)[i as int]);
            }
        }
        match decode(pieces[i]) {
            Some(text) => {
                parts.push(text);
            },
            None => {
                proof {
                    assert(!valid_utf8(wanted[i as int]));
                }
                return None;
            },
        }
        i = i + 1;
    }
    proof {
        assert(parts.deep_view() =~= texts_of(wanted)->0);
    }
    Some(parts)
}

/// Splits a comma-separated list into its entries, every piece between two
/// commas and the pieces before the first and after the last, as text.
pub fn splits_commas(input: &[u8]) -> (r: Result<Vec<String>, ParsingUpstreamError>)
    ensures
        match texts_of(split(input@, COMMA)) {
            Some(texts) => r matches Ok(parts) && parts.deep_view() == texts,
            None => r matches Err(e) && e.deep_view() == ParsingUpstreamErrorView::Utf8,
        },
{
    match decode_pieces(input, true) {
        Some(parts) => Ok(parts),
        None => Err(ParsingUpstreamError::Utf8),
    }
}

/// Splits the stop-list column of a route line into stop identifiers, in
/// order and with repetitions kept.
pub fn split_stops_field(stops_raw: &[u8]) -> (r: Result<Vec<String>, ParsingUpstreamError>)
    ensures
        match texts_of(list_entries(stops_raw@)) {
            Some(texts) => r matches Ok(parts) && parts.deep_view() == texts,
            None => r matches Err(e) && e.deep_view() == ParsingUpstreamErrorView::Utf8,
        },
{
    match decode_pieces(stops_raw, false) {
        Some(parts) => Ok(parts),
        None => Err(ParsingUpstreamError::Utf8),
    }
}

/// The route type and route number last seen on a route line, which a line
/// that leaves those columns empty inherits.
#[derive(Debug, PartialEq, Eq)]
pub struct LastRouteData {
    pub last_type: Option<String>,
    pub last_number: Option<String>,
}

/// The view of a [`LastRouteData`].
pub struct LastRouteDataView {
    pub last_type: Option<Seq<char>>,
    pub last_number: Option<Seq<char>>,
}

impl DeepView for LastRouteData {
    type V = LastRouteDataView;

    open spec fn deep_view(&self) -> LastRouteDataView {
        LastRouteDataView {
            last_type: self.last_type.deep_view(),
            last_number: self.last_number.deep_view(),
        }
    }
}

impl Default for LastRouteData {
    fn default() -> (d: Self)
        ensures
            d.deep_view() == (LastRouteDataView { last_type: None, last_number: None }),
    {
        LastRouteData { last_type: None, last_number: None }
    }
}

/// The record that a route line gives once its type and number are known:
/// it needs a direction name that is not empty; the stop list is that of the
/// stop column, or empty when the line ends before it.
pub open spec fn route_record(line: Seq<u8>, route_type: Seq<char>, number: Seq<char>) -> Option<
    RouteDataView,
> {
    match column(line, SEMICOLON, 10) {
        Some(c10) => match trimmed_text_of(c10) {
            Some(direction) => if direction.len() > 0 {
                match column(line, SEMICOLON, 13) {
                    Some(c13) => match texts_of(list_entries(c13)) {
                        Some(stops) => Some(
                            RouteDataView { number, route_type, directions: direction, stops },
                        ),
                        None => None,
                    },
                    None => Some(
                        RouteDataView {
                            number,
                            route_type,
                            directions: direction,
                            stops: Seq::empty(),
                        },
                    ),
                }
            } else {
                None
            },
            None => None,
        },
        None => None,
    }
}

/// What one line of the route feed does: the carried values after it, and
/// the record it yields, if any.
///
/// The type is column 3 and the number column 0, each trimmed; an empty one
/// is replaced by the value carried from earlier lines, and a line for which
/// neither the column nor a carried value gives one is dropped. The carried
/// type is updated as soon as the line's type is known, the carried number
/// as soon as its number is, whether or not the line goes on to yield a
/// record. A line with fewer than four columns, or with a needed column that
/// is not valid UTF-8, is dropped.
pub open spec fn route_line(line: Seq<u8>, last: LastRouteDataView) -> (
    LastRouteDataView,
    Option<RouteDataView>,
) {
    match (text_of(split(line, SEMICOLON)[0]), column(line, SEMICOLON, 3)) {
        (Some(raw_number), Some(c3)) => match text_of(c3) {
            Some(raw_type) => match present_or(trimmed(raw_type), last.last_type) {
                Some(route_type) => match present_or(trimmed(raw_number), last.last_number) {
                    Some(number) => (
                        LastRouteDataView {
                            last_type: Some(route_type),
                            last_number: Some(number),
                        },
                        route_record(line, route_type, number),
                    ),
                    None => (
                        LastRouteDataView {
                            last_type: Some(route_type),
                            last_number: last.last_number,
                        },
                        None,
                    ),
                },
                None => (last, None),
            },
            None => (last, None),
        },
        _ => (last, None),
    }
}

/// `text` unless it is empty, else a copy of `fallback`.
fn text_or(text: String, fallback: &Option<String>) -> (r: Option<String>)
    ensures
        r.deep_view() == present_or(text@, fallback.deep_view()),
{
    if !is_blank(&text) {
        Some(text)
    } else {
        match fallback {
            Some(f) => Some(f.clone()),
            None => None,
        }
    }
}

/// Parses one line of the route feed, reading and updating the carried type
/// and number.
pub fn extract_route_data_from_line(line: &[u8], last_data: &mut LastRouteData) -> (r: Option<
    RouteData,
>)
    ensures
        (final(last_data).deep_view(), r.deep_view()) == route_line(
            line@,
            old(last_data).deep_view(),
        ),
{
    let ghost cols = split(line@, SEMICOLON);
    proof {
        assert(line@.subrange(0, line@.len() as int) =~= line@);
        lemma_first_column(line@, SEMICOLON);
    }
    let b0: usize = column_end(line, SEMICOLON, 0);
    let raw_number = match decode_trimmed(slice_subrange(line, 0, b0)) {
        Some(t) => t,
        None => {
            return None;
        },
    };
    let (a3, b3) = match seek_after(line, SEMICOLON, b0, 2) {
        Some(span) => span,
        None => {
            return None;
        },
    };
    assert(cols[3] == line@.subrange(a3 as int, b3 as int) && cols.skip(4) == columns_after(
        line@,
        SEMICOLON,
        b3 as int,
    )) by {
        assert(cols.skip(1)[2] == cols[3]);
        assert(cols.skip(1).skip(3) =~= cols.skip(4));
    }
    let raw_type = match decode_trimmed(slice_subrange(line, a3, b3)) {
        Some(t) => t,
        None => {
            return None;
        },
    };
    let route_type = match text_or(raw_type, &last_data.last_type) {
        Some(t) => t,
        None => {
            return None;
        },
    };
    last_data.last_type = Some(route_type.clone());
    let number = match text_or(raw_number, &last_data.last_number) {
        Some(t) => t,
        None => {
            return None;
        },
    };
    last_data.last_number = Some(number.clone());
    let (a10, b10) = match seek_after(line, SEMICOLON, b3, 6) {
        Some(span) => span,
        None => {
            return None;
        },
    };
    assert(cols[10] == line@.subrange(a10 as int, b10 as int) && cols.skip(11) == columns_after(
        line@,
        SEMICOLON,
        b10 as int,
    )) by {
        assert(cols.skip(4)[6] == cols[10]);
        assert(cols.skip(4).skip(7) =~= cols.skip(11));
    }
    let direction = match decode_trimmed(slice_subrange(line, a10, b10)) {
        Some(t) => t,
        None => {
            return None;
        },
    };
    if is_blank(&direction) {
        return None;
    }
    let stops = match seek_after(line, SEMICOLON, b10, 2) {
        Some((a13, b13)) => {
            assert(cols[13] == line@.subrange(a13 as int, b13 as int)) by {
                assert(cols.skip(11)[2] == cols[13]);
            }
            match split_stops_field(slice_subrange(line, a13, b13)) {
                Ok(stops) => stops,
                Err(_) => {
                    return None;
                },
            }
        },
        None => {
            let stops: Vec<String> = Vec::new();
            assert(stops.deep_view() =~= Seq::<Seq<char>>::empty());
            stops
        },
    };
    Some(RouteData { number, route_type, directions: direction, stops })
}

/// The entry code that marks a low-entry vehicle: the single letter `Z`.
pub open spec fn low_entry_code() -> Seq<u8> {
    seq![90u8]
}

/// The classification of a departure at `time` by its entry code.
pub open spec fn classify(code: Seq<u8>, time: Seq<char>) -> ArrivalView {
    if code == low_entry_code() {
        ArrivalView::LowEntry(time)
    } else {
        ArrivalView::RegularEntry(time)
    }
}

/// What one line of the arrival feed gives.
///
/// Column 0 is the transport type, column 1 the route number, column 2 the
/// departure in seconds after local midnight of day `day`, column 6 the
/// entry code. The line fails as undecodable when type or number is not
/// valid UTF-8. It fails as malformed when it ends before the route number
/// or before the entry code, when the departure is no number, and when the
/// departure names no time, with the reason why it names none.
pub open spec fn arrival_line(line: Seq<u8>, day: int) -> Result<
    StopArrivalView,
    ParsingUpstreamErrorView,
> {
    let cols = split(line, COMMA);
    match text_of(cols[0]) {
        None => Err(ParsingUpstreamErrorView::Utf8),
        Some(route_type) => if cols.len() < 2 {
            Err(ParsingUpstreamErrorView::Error("invalid arrival data1"@))
        } else {
            match text_of(cols[1]) {
                None => Err(ParsingUpstreamErrorView::Utf8),
                Some(number) => if cols.len() < 3 {
                    Err(ParsingUpstreamErrorView::Error("invalid arrival data3"@))
                } else {
                    match decimal_u32(cols[2]) {
                        None => Err(ParsingUpstreamErrorView::Error("incorrect arrival time"@)),
                        Some(seconds) => match local_seconds_to_utc(day, seconds as int) {
                            Err(reason) => Err(ParsingUpstreamErrorView::Error(reason)),
                            Ok(time) => if cols.len() < 7 {
                                Err(ParsingUpstreamErrorView::Error("invalid arrival data3"@))
                            } else {
                                Ok(
                                    StopArrivalView {
                                        number,
                                        route_type,
                                        arrivals: classify(cols[6], time),
                                    },
                                )
                            },
                        },
                    }
                },
            }
        },
    }
}

/// `r` is the outcome `expected`, as text.
pub open spec fn is_arrival_answer(
    r: Result<StopArrival, ParsingUpstreamError>,
    expected: Result<StopArrivalView, ParsingUpstreamErrorView>,
) -> bool {
    match expected {
        Ok(a) => r matches Ok(x) && x.deep_view() == a,
        Err(e) => r matches Err(x) && x.deep_view() == e,
    }
}

/// Parses one line of the arrival feed; `reference_day` is the day number of
/// the feed's reference date.
pub fn extract_arrival_data(arrival_line: &[u8], reference_day: i32) -> (r: Result<
    StopArrival,
    ParsingUpstreamError,
>)
    ensures
        is_arrival_answer(r, self::arrival_line(arrival_line@, reference_day as int)),
{
    let ghost cols = split(arrival_line@, COMMA);
    proof {
        assert(arrival_line@.subrange(0, arrival_line@.len() as int) =~= arrival_line@);
        lemma_first_column(arrival_line@, COMMA);
    }
    let b0: usize = column_end(arrival_line, COMMA, 0);
    let route_type = match decode(slice_subrange(arrival_line, 0, b0)) {
        Some(t) => t,
        None => {
            return Err(ParsingUpstreamError::Utf8);
        },
    };
    let (a1, b1) = match seek_after(arrival_line, COMMA, b0, 0) {
        Some(span) => span,
        None => {
            return Err(ParsingUpstreamError::Error("invalid arrival data1".to_owned()));
        },
    };
    assert(cols[1] == arrival_line@.subrange(a1 as int, b1 as int) && cols.skip(2)
        == columns_after(arrival_line@, COMMA, b1 as int)) by {
        assert(cols.skip(1)[0] == cols[1]);
        assert(cols.skip(1).skip(1) =~= cols.skip(2));
    }
    let number = match decode(slice_subrange(arrival_line, a1, b1)) {
        Some(t) => t,
        None => {
            return Err(ParsingUpstreamError::Utf8);
        },
    };
    let (a2, b2) = match seek_after(arrival_line, COMMA, b1, 0) {
        Some(span) => span,
        None => {
            return Err(ParsingUpstreamError::Error("invalid arrival data3".to_owned()));
        },
    };
    assert(cols[2] == arrival_line@.subrange(a2 as int, b2 as int) && cols.skip(3)
        == columns_after(arrival_line@, COMMA, b2 as int)) by {
        assert(cols.skip(2)[0] == cols[2]);
        assert(cols.skip(2).skip(1) =~= cols.skip(3));
    }
    let seconds = match parse_u32(slice_subrange(arrival_line, a2, b2)) {
        Some(s) => s,
        None => {
            return Err(ParsingUpstreamError::Error("incorrect arrival time".to_owned()));
        },
    };
    let time = match local_seconds_to_utc_iso(reference_day, seconds) {
        Ok(t) => t,
        Err(reason) => {
            return Err(ParsingUpstreamError::Error(reason.to_owned()));
        },
    };
    let (a6, b6) = match seek_after(arrival_line, COMMA, b2, 3) {
        Some(span) => span,
        None => {
            return Err(ParsingUpstreamError::Error("invalid arrival data3".to_owned()));
        },
    };
    assert(cols[6] == arrival_line@.subrange(a6 as int, b6 as int)) by {
        assert(cols.skip(3)[3] == cols[6]);
    }
    let is_low: bool = b6 - a6 == 1 && arrival_line[a6] == 90u8;
    assert(is_low == (cols[6] == low_entry_code())) by {
        if is_low {
            assert(cols[6] =~= low_entry_code());
        } else if cols[6] == low_entry_code() {
            assert(cols[6].len() == 1);
            assert(cols[6][0] == 90u8);
        }
    }
    let arrivals = if is_low {
        Arrival::LowEntry(time)
    } else {
        Arrival::RegularEntry(time)
    };
    Ok(StopArrival { number, route_type, arrivals })
}

/// The route index with one more record: the record's stop list becomes the
/// list of its direction in the group of its type and number, replacing a
/// list that the direction had; type, group and direction are added where
/// they are new.
pub open spec fn route_map_put(m: RouteMapView, r: RouteDataView) -> RouteMapView {
    let routes = match assoc_get(m, r.route_type) {
        Some(routes) => routes,
        None => Seq::empty(),
    };
    let group = match assoc_get(routes, r.number) {
        Some(g) => RouteGroupView {
            number: g.number,
            route_type: g.route_type,
            directions: assoc_put(g.directions, r.directions, r.stops),
        },
        None => RouteGroupView {
            number: r.number,
            route_type: r.route_type,
            directions: seq![(r.directions, r.stops)],
        },
    };
    assoc_put(m, r.route_type, assoc_put(routes, r.number, group))
}

/// Enters one parsed route line into the route index.
pub fn insert_route(route_map: &mut RouteMap, data: RouteData)
    ensures
        final(route_map).deep_view() == route_map_put(
            old(route_map).deep_view(),
            data.deep_view(),
        ),
        route_map_wf(old(route_map).deep_view()) ==> route_map_wf(final(route_map).deep_view()),
{
    let ghost m0 = route_map.deep_view();
    let ghost r = data.deep_view();
    proof {
        if route_map_wf(m0) {
            lemma_route_map_put_wf(m0, r);
        }
    }
    let RouteData { number, route_type, directions, stops } = data;
    let ti: usize = match route_map.position(route_type.as_str()) {
        Some(i) => i,
        None => {
            route_map.push_entry(route_type.clone(), OrdMap::new());
            route_map.entries.len() - 1
        },
    };
    let ghost m1 = route_map.deep_view();
    let ghost before = *route_map;
    let ghost routes = m1[ti as int].1;
    proof {
        lemma_key_index(m0, r.route_type);
        assert(routes == match assoc_get(m0, r.route_type) {
            Some(x) => x,
            None => Seq::empty(),
        });
        assert(m1[ti as int].0 == r.route_type);
    }
    match route_map.entries[ti].value.position(number.as_str()) {
        Some(j) => {
            let ghost inner_before = route_map.entries[ti as int].value;
            route_map.entries[ti].value.entries[j].value.directions.insert(directions, stops);
            proof {
                let inner_after = route_map.entries[ti as int].value;
                lemma_value_replaced(inner_before, inner_after, j as int);
                lemma_value_replaced(before, *route_map, ti as int);
                lemma_key_index(routes, r.number);
                let g = routes[j as int].1;
                let g2 = RouteGroupView {
                    number: g.number,
                    route_type: g.route_type,
                    directions: assoc_put(g.directions, r.directions, r.stops),
                };
                assert(inner_after.entries@[j as int].value.deep_view() == g2);
                assert(inner_after.deep_view() == assoc_put(routes, r.number, g2));
            }
        },
        None => {
            let mut dirs: OrdMap<Vec<String>> = OrdMap::new();
            dirs.push_entry(directions, stops);
            let group = RouteGroup { number: number.clone(), route_type, directions: dirs };
            proof {
                assert(group.deep_view().directions =~= seq![(r.directions, r.stops)]);
            }
            route_map.entries[ti].value.push_entry(number, group);
            proof {
                lemma_value_replaced(before, *route_map, ti as int);
            }
        },
    }
    proof {
        if assoc_has(m0, r.route_type) {
        } else {
            let inner = route_map.deep_view()[ti as int].1;
            assert(route_map.deep_view() =~= m0.push((r.route_type, inner)));
        }
    }
}

/// What one parsed line does to the route index and the carried values.
pub open spec fn route_step(st: (RouteMapView, LastRouteDataView), line: Seq<u8>) -> (
    RouteMapView,
    LastRouteDataView,
) {
    let (last, record) = route_line(line, st.1);
    match record {
        Some(r) => (route_map_put(st.0, r), last),
        None => (st.0, last),
    }
}

/// [`route_step`] as a function value, for folds.
pub open spec fn route_stepper() -> spec_fn((RouteMapView, LastRouteDataView), Seq<u8>) -> (
    RouteMapView,
    LastRouteDataView,
) {
    |st: (RouteMapView, LastRouteDataView), line: Seq<u8>| route_step(st, line)
}

/// The route index and the carried values, folded over the route feed.
impl LineFold for (RouteMap, LastRouteData) {
    type Model = (RouteMapView, LastRouteDataView);

    open spec fn model(&self) -> (RouteMapView, LastRouteDataView) {
        (self.0.deep_view(), self.1.deep_view())
    }

    open spec fn step() -> spec_fn((RouteMapView, LastRouteDataView), Seq<u8>) -> (
        RouteMapView,
        LastRouteDataView,
    ) {
        route_stepper()
    }

    fn take_line(&mut self, line: &[u8]) {
        let record = extract_route_data_from_line(line, &mut self.1);
        if let Some(data) = record {
            insert_route(&mut self.0, data);
        }
    }
}

/// Parses the complete lines of `buf` from `last_processed` on into the
/// route index. Returns the index, the carried values, the offset after the
/// last complete line, and whether the header line has been passed.
pub fn extract_route_data_from_buffer(
    buf: &[u8],
    route_map: RouteMap,
    last_data: LastRouteData,
    last_processed: usize,
    first_line_skipped: bool,
) -> (r: (RouteMap, LastRouteData, usize, bool))
    requires
        last_processed <= buf@.len(),
    ensures
        ((r.0.deep_view(), r.1.deep_view()), r.2 as int, r.3) == scan_lines(
            buf@,
            (route_map.deep_view(), last_data.deep_view()),
            last_processed as int,
            first_line_skipped,
            route_stepper(),
        ),
        route_map_wf(route_map.deep_view()) ==> route_map_wf(r.0.deep_view()),
{
    let ghost st0 = (route_map.deep_view(), last_data.deep_view());
    let ghost rest = buf@.subrange(last_processed as int, buf@.len() as int);
    let (state, pos, skipped) = scan_buffer(
        buf,
        (route_map, last_data),
        last_processed,
        first_line_skipped,
    );
    proof {
        if route_map_wf(st0.0) {
            lemma_route_fold_wf(body_lines(rest, first_line_skipped), st0);
        }
    }
    (state.0, state.1, pos, skipped)
}

/// Appends `chunk` to `buf`.
fn append_bytes(buf: &mut Vec<u8>, chunk: &Vec<u8>)
    ensures
        final(buf)@ == old(buf)@ + chunk@,
{
    buf.extend_from_slice(chunk.as_slice());
    assert(buf@ =~= old(buf)@ + chunk@);
}

/// Takes one more chunk of the route feed: appends it to the buffer and
/// parses the lines that it completes.
pub fn extract_route_data_from_buffer_fold(
    state: (Vec<u8>, RouteMap, LastRouteData, usize, bool),
    chunk: Vec<u8>,
) -> (r: (Vec<u8>, RouteMap, LastRouteData, usize, bool))
    requires
        state.3 <= state.0@.len(),
    ensures
        r.0@ == state.0@ + chunk@,
        r.3 <= r.0@.len(),
        ((r.1.deep_view(), r.2.deep_view()), r.3 as int, r.4) == scan_lines(
            state.0@ + chunk@,
            (state.1.deep_view(), state.2.deep_view()),
            state.3 as int,
            state.4,
            route_stepper(),
        ),
        route_map_wf(state.1.deep_view()) ==> route_map_wf(r.1.deep_view()),
{
    let (mut buf, route_map, last_data, last_processed, first_line_skipped) = state;
    append_bytes(&mut buf, &chunk);
    let (route_map, last_data, last_processed, first_line_skipped) =
        extract_route_data_from_buffer(
        buf.as_slice(),
        route_map,
        last_data,
        last_processed,
        first_line_skipped,
    );
    (buf, route_map, last_data, last_processed, first_line_skipped)
}

/// The set of transport types with one more member, in order of first
/// appearance.
pub open spec fn set_put(set: Seq<Seq<char>>, x: Seq<char>) -> Seq<Seq<char>> {
    if set.contains(x) {
        set
    } else {
        set.push(x)
    }
}

/// What one line of the route feed adds to the set of transport types: its
/// column 3, trimmed, when the column is there, is valid UTF-8 and is not
/// empty after trimming.
pub open spec fn type_step(set: Seq<Seq<char>>, line: Seq<u8>) -> Seq<Seq<char>> {
    match column(line, SEMICOLON, 3) {
        Some(c) => match trimmed_text_of(c) {
            Some(text) => if text.len() > 0 {
                set_put(set, text)
            } else {
                set
            },
            None => set,
        },
        None => set,
    }
}

/// [`type_step`] as a function value, for folds.
pub open spec fn type_stepper() -> spec_fn(Seq<Seq<char>>, Seq<u8>) -> Seq<Seq<char>> {
    |set: Seq<Seq<char>>, line: Seq<u8>| type_step(set, line)
}

/// Adds `x` to a set of texts kept in order of first appearance.
pub fn insert_type(set: &mut Vec<String>, x: String)
    ensures
        final(set).deep_view() == set_put(old(set).deep_view(), x@),
        old(set).deep_view().no_duplicates() ==> final(set).deep_view().no_duplicates(),
{
    proof {
        if set.deep_view().no_duplicates() {
            lemma_set_put_wf(set.deep_view(), set_put(set.deep_view(), x@));
        }
    }
    let mut i: usize = 0;
    while i < set.len()
        invariant
            i <= set@.len(),
            set@ == old(set)@,
            forall|j: int| 0 <= j < i ==> set.deep_view()[j] != x@,
        decreases set@.len() - i,
    {
        if set[i] == x {
            assert(set.deep_view()[i as int] == x@);
            return ;
        }
        i = i + 1;
    }
    assert(!old(set).deep_view().contains(x@));
    set.push(x);
    assert(set.deep_view() =~= old(set).deep_view().push(x@));
}

/// The set of transport types, folded over the route feed.
impl LineFold for Vec<String> {
    type Model = Seq<Seq<char>>;

    open spec fn model(&self) -> Seq<Seq<char>> {
        self.deep_view()
    }

    open spec fn step() -> spec_fn(Seq<Seq<char>>, Seq<u8>) -> Seq<Seq<char>> {
        type_stepper()
    }

    fn take_line(&mut self, line: &[u8]) {
        if let Some(bytes) = col_at_memchr_bytes(line, 3) {
            if let Some(transport_type) = decode_trimmed(bytes) {
                if !is_blank(&transport_type) {
                    insert_type(self, transport_type);
                }
            }
        }
    }
}

/// Parses the complete lines of `buf` from `last_processed` on into the set
/// of transport types.
pub fn extract_type_from_buffer(
    buf: &[u8],
    type_set: Vec<String>,
    last_processed: usize,
    first_line_skipped: bool,
) -> (r: (Vec<String>, usize, bool))
    requires
        last_processed <= buf@.len(),
    ensures
        (r.0.deep_view(), r.1 as int, r.2) == scan_lines(
            buf@,
            type_set.deep_view(),
            last_processed as int,
            first_line_skipped,
            type_stepper(),
        ),
        type_set.deep_view().no_duplicates() ==> r.0.deep_view().no_duplicates(),
{
    let ghost st0 = type_set.deep_view();
    let ghost rest = buf@.subrange(last_processed as int, buf@.len() as int);
    let r = scan_buffer(buf, type_set, last_processed, first_line_skipped);
    proof {
        if st0.no_duplicates() {
            lemma_type_fold_wf(body_lines(rest, first_line_skipped), st0);
        }
    }
    r
}

/// Takes one more chunk of the route feed for the set of transport types.
pub fn extract_type_from_buffer_fold(state: (Vec<u8>, Vec<String>, usize, bool), chunk: Vec<u8>) -> (r:
    (Vec<u8>, Vec<String>, usize, bool))
    requires
        state.2 <= state.0@.len(),
    ensures
        r.0@ == state.0@ + chunk@,
        r.2 <= r.0@.len(),
        (r.1.deep_view(), r.2 as int, r.3) == scan_lines(
            state.0@ + chunk@,
            state.1.deep_view(),
            state.2 as int,
            state.3,
            type_stepper(),
        ),
        state.1.deep_view().no_duplicates() ==> r.1.deep_view().no_duplicates(),
{
    let (mut buf, type_set, last_processed, first_line_skipped) = state;
    append_bytes(&mut buf, &chunk);
    let (type_set, last_processed, first_line_skipped) = extract_type_from_buffer(
        buf.as_slice(),
        type_set,
        last_processed,
        first_line_skipped,
    );
    (buf, type_set, last_processed, first_line_skipped)
}

/// The stop that a line of the stop feed describes, if it describes one.
///
/// Column 0 is the stop's id, column 1 its siri id, column 5 its name, each
/// trimmed. An empty name, or a line that ends before the name column, takes
/// the name carried from earlier lines. The line is dropped when id or siri
/// id is missing or empty, when there is no name and none is carried, or
/// when one of the three columns is not valid UTF-8.
pub open spec fn stop_line(line: Seq<u8>, last_name: Option<Seq<char>>) -> Option<StopDataView> {
    let cols = split(line, SEMICOLON);
    match trimmed_text_of(cols[0]) {
        None => None,
        Some(id) => if cols.len() < 2 {
            None
        } else {
            match trimmed_text_of(cols[1]) {
                None => None,
                Some(siri_id) => {
                    let name = if cols.len() < 6 {
                        Some(last_name)
                    } else {
                        match trimmed_text_of(cols[5]) {
                            Some(text) => Some(present_or(text, last_name)),
                            None => None,
                        }
                    };
                    match name {
                        Some(Some(name)) => if siri_id.len() > 0 && id.len() > 0 {
                            Some(StopDataView { id, siri_id, name })
                        } else {
                            None
                        },
                        _ => None,
                    }
                },
            }
        },
    }
}

/// Parses one line of the stop feed; `last_name` is the name carried from
/// earlier lines.
pub fn extract_stop_data_from_line(line: &[u8], last_name: &Option<Rc<String>>) -> (r: Option<
    Rc<StopData>,
>)
    ensures
        r.deep_view() == stop_line(line@, last_name.deep_view()),
{
    let ghost cols = split(line@, SEMICOLON);
    proof {
        assert(line@.subrange(0, line@.len() as int) =~= line@);
        lemma_first_column(line@, SEMICOLON);
    }
    let b0: usize = column_end(line, SEMICOLON, 0);
    let id = match decode_trimmed(slice_subrange(line, 0, b0)) {
        Some(t) => t,
        None => {
            return None;
        },
    };
    let (a1, b1) = match seek_after(line, SEMICOLON, b0, 0) {
        Some(span) => span,
        None => {
            return None;
        },
    };
    assert(cols[1] == line@.subrange(a1 as int, b1 as int) && cols.skip(2) == columns_after(
        line@,
        SEMICOLON,
        b1 as int,
    )) by {
        assert(cols.skip(1)[0] == cols[1]);
        assert(cols.skip(1).skip(1) =~= cols.skip(2));
    }
    let siri_id = match decode_trimmed(slice_subrange(line, a1, b1)) {
        Some(t) => t,
        None => {
            return None;
        },
    };
    let name_text: Option<String> = match seek_after(line, SEMICOLON, b1, 3) {
        Some((a5, b5)) => {
            assert(cols[5] == line@.subrange(a5 as int, b5 as int)) by {
                assert(cols.skip(2)[3] == cols[5]);
            }
            match decode_trimmed(slice_subrange(line, a5, b5)) {
                Some(t) => Some(t),
                None => {
                    return None;
                },
            }
        },
        None => None,
    };
    let name: Rc<String> = match name_text {
        Some(text) if !is_blank(&text) => Rc::new(text),
        _ => match last_name {
            Some(carried) => rc_share(carried),
            None => {
                return None;
            },
        },
    };
    if is_blank(&siri_id) || is_blank(&id) {
        return None;
    }
    Some(Rc::new(StopData { id, siri_id, name }))
}

/// What one parsed line does to the stop index and the carried name: a stop
/// is entered under its id and under its siri id, and its name is carried on.
pub open spec fn stop_step(st: (StopMapView, Option<Seq<char>>), line: Seq<u8>) -> (
    StopMapView,
    Option<Seq<char>>,
) {
    match stop_line(line, st.1) {
        Some(stop) => (st.0.insert(stop.id, stop).insert(stop.siri_id, stop), Some(stop.name)),
        None => st,
    }
}

/// [`stop_step`] as a function value, for folds.
pub open spec fn stop_stepper() -> spec_fn((StopMapView, Option<Seq<char>>), Seq<u8>) -> (
    StopMapView,
    Option<Seq<char>>,
) {
    |st: (StopMapView, Option<Seq<char>>), line: Seq<u8>| stop_step(st, line)
}

/// The stop index and the carried name, folded over the stop feed.
impl LineFold for (StopMap, Option<Rc<String>>) {
    type Model = (StopMapView, Option<Seq<char>>);

    open spec fn model(&self) -> (StopMapView, Option<Seq<char>>) {
        (self.0.deep_view(), self.1.deep_view())
    }

    open spec fn step() -> spec_fn((StopMapView, Option<Seq<char>>), Seq<u8>) -> (
        StopMapView,
        Option<Seq<char>>,
    ) {
        stop_stepper()
    }

    fn take_line(&mut self, line: &[u8]) {
        if let Some(stop) = extract_stop_data_from_line(line, &self.1) {
            self.1 = Some(rc_share(&stop.name));
            self.0.insert(stop.id.clone(), rc_share(&stop));
            self.0.insert(stop.siri_id.clone(), stop);
        }
    }
}

/// Parses the complete lines of `buf` from `last_processed` on into the stop
/// index.
pub fn extract_stop_data_from_buffer(
    buf: &[u8],
    stop_map: StopMap,
    last_name: Option<Rc<String>>,
    last_processed: usize,
    first_line_skipped: bool,
) -> (r: (StopMap, Option<Rc<String>>, usize, bool))
    requires
        last_processed <= buf@.len(),
    ensures
        ((r.0.deep_view(), r.1.deep_view()), r.2 as int, r.3) == scan_lines(
            buf@,
            (stop_map.deep_view(), last_name.deep_view()),
            last_processed as int,
            first_line_skipped,
            stop_stepper(),
        ),
        stop_map_wf(stop_map.deep_view()) ==> stop_map_wf(r.0.deep_view()),
{
    let ghost st0 = (stop_map.deep_view(), last_name.deep_view());
    let ghost rest = buf@.subrange(last_processed as int, buf@.len() as int);
    let (state, pos, skipped) = scan_buffer(
        buf,
        (stop_map, last_name),
        last_processed,
        first_line_skipped,
    );
    proof {
        if stop_map_wf(st0.0) {
            lemma_stop_fold_wf(body_lines(rest, first_line_skipped), st0);
        }
    }
    (state.0, state.1, pos, skipped)
}

/// Takes one more chunk of the stop feed: appends it to the buffer and
/// parses the lines that it completes.
pub fn extract_stop_data_from_buffer_fold(
    state: (Vec<u8>, StopMap, Option<Rc<String>>, usize, bool),
    chunk: Vec<u8>,
) -> (r: (Vec<u8>, StopMap, Option<Rc<String>>, usize, bool))
    requires
        state.3 <= state.0@.len(),
    ensures
        r.0@ == state.0@ + chunk@,
        r.3 <= r.0@.len(),
        ((r.1.deep_view(), r.2.deep_view()), r.3 as int, r.4) == scan_lines(
            state.0@ + chunk@,
            (state.1.deep_view(), state.2.deep_view()),
            state.3 as int,
            state.4,
            stop_stepper(),
        ),
        stop_map_wf(state.1.deep_view()) ==> stop_map_wf(r.1.deep_view()),
{
    let (mut buf, stop_map, last_name, last_processed, first_line_skipped) = state;
    append_bytes(&mut buf, &chunk);
    let (stop_map, last_name, last_processed, first_line_skipped) = extract_stop_data_from_buffer(
        buf.as_slice(),
        stop_map,
        last_name,
        last_processed,
        first_line_skipped,
    );
    (buf, stop_map, last_name, last_processed, first_line_skipped)
}

/// The byte sequence that starts a stop's block in the arrival feed: a line
/// feed followed by `stop,`.
pub open spec fn block_mark() -> Seq<u8> {
    seq![10u8, 115u8, 116u8, 111u8, 112u8, 44u8]
}

/// The pieces into which the block marks cut `s`. A piece ends before the
/// line feed of a mark, and the next one starts right after that line feed,
/// so every piece but the first starts with `stop,`.
pub open spec fn block_pieces(s: Seq<u8>) -> Seq<Seq<u8>>
    decreases s.len(),
{
    let i = first_occurrence(s, block_mark());
    if 0 <= i < s.len() {
        seq![s.subrange(0, i)] + block_pieces(s.subrange(i + 1, s.len() as int))
    } else {
        seq![s]
    }
}

/// The block mark as bytes.
fn block_mark_bytes() -> (m: Vec<u8>)
    ensures
        m@ == block_mark(),
{
    let m: Vec<u8> = vec![10u8, 115u8, 116u8, 111u8, 112u8, 44u8];
    assert(m@ =~= block_mark());
    m
}

/// Cuts `data` at the block marks.
fn split_blocks<'a>(data: &'a [u8]) -> (r: Vec<&'a [u8]>)
    ensures
        slices_view(r@) == block_pieces(data@),
{
    let n: usize = data.len();
    let mark = block_mark_bytes();
    let mut blocks: Vec<&'a [u8]> = Vec::new();
    let mut pos: usize = 0;
    proof {
        assert(data@.subrange(0, n as int) =~= data@);
        assert(slices_view(blocks@) + block_pieces(data@) =~= block_pieces(data@));
    }
    loop
        invariant
            n == data@.len(),
            pos <= n,
            mark@ == block_mark(),
            block_pieces(data@) == slices_view(blocks@) + block_pieces(
                data@.subrange(pos as int, n as int),
            ),
        decreases n - pos,
    {
        let ghost rest = data@.subrange(pos as int, n as int);
        let ghost before = slices_view(blocks@);
        let at: usize = occurrence_from(data, mark.as_slice(), pos);
        let piece = slice_subrange(data, pos, at);
        blocks.push(piece);
        proof {
            lemma_first_occurrence(rest, block_mark());
            assert(slices_view(blocks@) =~= before.push(piece@));
            assert(rest.subrange(0, at - pos) =~= piece@);
        }
        if at == n {
            proof {
                assert(rest =~= piece@);
                assert(before + seq![rest] =~= before.push(piece@));
            }
            return blocks;
        }
        proof {
            assert(rest.subrange(at - pos + 1, rest.len() as int) =~= data@.subrange(
                at + 1,
                n as int,
            ));
            assert(before + (seq![piece@] + block_pieces(data@.subrange(at + 1, n as int)))
                =~= before.push(piece@) + block_pieces(data@.subrange(at + 1, n as int)));
        }
        pos = at + 1;
    }
}

/// The blocks of an arrival response, one per stop: the pieces that the
/// block marks cut it into, without the piece before the first mark.
pub fn split_arrival_by_stops<'a>(arrival: &'a [u8]) -> (r: Vec<&'a [u8]>)
    ensures
        slices_view(r@) == block_pieces(arrival@).drop_first(),
{
    let mut blocks = split_blocks(arrival);
    proof {
        assert(blocks@.len() == slices_view(blocks@).len());
        lemma_block_pieces_nonempty(arrival@);
    }
    let ghost before = blocks@;
    blocks.remove(0);
    assert(slices_view(blocks@) =~= slices_view(before).drop_first());
    blocks
}

/// There is always at least one piece.
pub proof fn lemma_block_pieces_nonempty(s: Seq<u8>)
    ensures
        block_pieces(s).len() >= 1,
{
}

/// The departures of one stop, with one more: it is appended to the list of
/// its transport type and route number.
pub open spec fn table_put(t: ArrivalTableView, a: StopArrivalView) -> ArrivalTableView {
    let routes = match assoc_get(t, a.route_type) {
        Some(routes) => routes,
        None => Seq::empty(),
    };
    let list = match assoc_get(routes, a.number) {
        Some(list) => list,
        None => Seq::empty(),
    };
    assoc_put(t, a.route_type, assoc_put(routes, a.number, list.push(a.arrivals)))
}

/// Enters one departure into a stop's table.
pub fn insert_arrival(table: &mut ArrivalTable, arrival: StopArrival)
    ensures
        final(table).deep_view() == table_put(old(table).deep_view(), arrival.deep_view()),
        table_wf(old(table).deep_view()) ==> table_wf(final(table).deep_view()),
{
    let ghost t0 = table.deep_view();
    let ghost a = arrival.deep_view();
    proof {
        if table_wf(t0) {
            lemma_table_put_wf(t0, a);
        }
    }
    let StopArrival { number, route_type, arrivals } = arrival;
    let ti: usize = match table.position(route_type.as_str()) {
        Some(i) => i,
        None => {
            table.push_entry(route_type, OrdMap::new());
            table.entries.len() - 1
        },
    };
    let ghost before = *table;
    let ghost routes = table.deep_view()[ti as int].1;
    proof {
        lemma_key_index(t0, a.route_type);
        assert(routes == match assoc_get(t0, a.route_type) {
            Some(x) => x,
            None => Seq::empty(),
        });
        assert(table.deep_view()[ti as int].0 == a.route_type);
    }
    match table.entries[ti].value.position(number.as_str()) {
        Some(j) => {
            let ghost inner_before = table.entries[ti as int].value;
            table.entries[ti].value.entries[j].value.push(arrivals);
            proof {
                let inner_after = table.entries[ti as int].value;
                lemma_value_replaced(inner_before, inner_after, j as int);
                lemma_value_replaced(before, *table, ti as int);
                lemma_key_index(routes, a.number);
                assert(inner_after.entries@[j as int].value.deep_view() =~= routes[j as int].1.push(
                    a.arrivals,
                ));
            }
        },
        None => {
            let mut list: Vec<Arrival> = Vec::new();
            list.push(arrivals);
            proof {
                assert(list.deep_view() =~= Seq::<ArrivalView>::empty().push(a.arrivals));
            }
            table.entries[ti].value.push_entry(number, list);
            proof {
                lemma_value_replaced(before, *table, ti as int);
            }
        },
    }
    proof {
        if assoc_has(t0, a.route_type) {
        } else {
            let inner = table.deep_view()[ti as int].1;
            assert(table.deep_view() =~= t0.push((a.route_type, inner)));
        }
    }
}

/// The lines of a block's body that hold a departure: the pieces between
/// line feeds that are not empty.
pub open spec fn departure_lines(s: Seq<u8>) -> Seq<Seq<u8>> {
    keep_nonempty(split(s, NEWLINE))
}

/// The pieces among `pieces` that are not empty, in order.
pub open spec fn keep_nonempty(pieces: Seq<Seq<u8>>) -> Seq<Seq<u8>>
    decreases pieces.len(),
{
    if pieces.len() == 0 {
        pieces
    } else if pieces.last().len() > 0 {
        keep_nonempty(pieces.drop_last()).push(pieces.last())
    } else {
        keep_nonempty(pieces.drop_last())
    }
}

/// The table that the lines of a block's body build. Empty lines are passed
/// over; the first line that fails ends it with that line's error.
pub open spec fn arrival_table(lines: Seq<Seq<u8>>, day: int) -> Result<
    ArrivalTableView,
    ParsingUpstreamErrorView,
>
    decreases lines.len(),
{
    if lines.len() == 0 {
        Ok(Seq::empty())
    } else {
        match arrival_table(lines.drop_last(), day) {
            Err(e) => Err(e),
            Ok(t) => if lines.last().len() == 0 {
                Ok(t)
            } else {
                match arrival_line(lines.last(), day) {
                    Err(e) => Err(e),
                    Ok(a) => Ok(table_put(t, a)),
                }
            },
        }
    }
}

/// A table fails as soon as a prefix of its lines fails, with that prefix's
/// error.
pub proof fn lemma_arrival_table_fails(lines: Seq<Seq<u8>>, k: int, day: int)
    requires
        0 <= k <= lines.len(),
        arrival_table(lines.take(k), day) is Err,
    ensures
        arrival_table(lines, day) == arrival_table(lines.take(k), day),
    decreases lines.len() - k,
{
    if k == lines.len() {
        assert(lines.take(k) =~= lines);
    } else {
        assert(lines.take(k + 1).drop_last() =~= lines.take(k));
        lemma_arrival_table_fails(lines, k + 1, day);
    }
}

/// Parses a line of a block's body, unless it is empty.
fn parse_departure(line: &[u8], reference_day: i32) -> (r: Option<
    Result<StopArrival, ParsingUpstreamError>,
>)
    ensures
        match r {
            Some(parsed) => line@.len() > 0 && is_arrival_answer(
                parsed,
                arrival_line(line@, reference_day as int),
            ),
            None => line@.len() == 0,
        },
{
    if line.len() > 0 {
        Some(extract_arrival_data(line, reference_day))
    } else {
        None
    }
}

/// Parses every departure line of a block's body, in order.
pub fn extract_arrival_list_data(arrival_lines: &[u8], reference_day: i32) -> (r: Vec<
    Result<StopArrival, ParsingUpstreamError>,
>)
    ensures
        r@.len() == departure_lines(arrival_lines@).len(),
        forall|i: int|
            0 <= i < r@.len() ==> is_arrival_answer(
                #[trigger] r@[i],
                arrival_line(departure_lines(arrival_lines@)[i], reference_day as int),
            ),
{
    let pieces = split_slices(arrival_lines, NEWLINE);
    let ghost all = split(arrival_lines@, NEWLINE);
    let mut out: Vec<Result<StopArrival, ParsingUpstreamError>> = Vec::new();
    let mut i: usize = 0;
    proof {
        assert(all.take(0) =~= Seq::<Seq<u8>>::empty());
        assert(pieces@.len() == slices_view(pieces@).len());
    }
    while i < pieces.len()
        invariant
            i <= pieces@.len(),
            pieces@.len() == all.len(),
            slices_view(pieces@) == all,
            all == split(arrival_lines@, NEWLINE),
            out@.len() == keep_nonempty(all.take(i as int)).len(),
            forall|j: int|
                0 <= j < out@.len() ==> is_arrival_answer(
                    #[trigger] out@[j],
                    arrival_line(keep_nonempty(all.take(i as int))[j], reference_day as int),
                ),
        decreases pieces@.len() - i,
    {
        proof {
            assert(all[i as int] == pieces@[i as int]@);
            assert(all.take(i + 1).drop_last() =~= all.take(i as int));
        }
        if let Some(parsed) = parse_departure(pieces[i], reference_day) {
            out.push(parsed);
        }
        i = i + 1;
    }
    proof {
        assert(all.take(i as int) =~= all);
    }
    out
}

/// What one block of the arrival feed gives.
///
/// The block's first line is its header, and the stop's siri id is what
/// follows the first comma of the header. The lines after it are departure
/// lines. The block fails when it has no line feed, when its header has no
/// comma, when a departure line fails, when the siri id is not valid UTF-8,
/// and when the stop index does not know the siri id: a stop is not
/// reported without a name.
pub open spec fn stop_block(block: Seq<u8>, stops: StopMapView, day: int) -> Result<
    StopArrivalsView,
    ParsingUpstreamErrorView,
> {
    let nl = first_delim(block, NEWLINE);
    if nl >= block.len() {
        Err(ParsingUpstreamErrorView::Error("invalid arrival data4"@))
    } else {
        let header = block.subrange(0, nl);
        let comma = first_delim(header, COMMA);
        if comma >= header.len() {
            Err(ParsingUpstreamErrorView::Error("invalid arrival data5"@))
        } else {
            match arrival_table(split(block.subrange(nl + 1, block.len() as int), NEWLINE), day) {
                Err(e) => Err(e),
                Ok(arrivals) => match text_of(header.subrange(comma + 1, header.len() as int)) {
                    None => Err(ParsingUpstreamErrorView::Utf8),
                    Some(id) => if stops.contains_key(id) {
                        Ok(StopArrivalsView { id, name: stops[id].name, arrivals })
                    } else {
                        Err(ParsingUpstreamErrorView::Error("invalid arrival data6"@))
                    },
                },
            }
        }
    }
}

/// `r` is the outcome `expected`, as text.
pub open spec fn is_block_answer(
    r: Result<StopArrivals, ParsingUpstreamError>,
    expected: Result<StopArrivalsView, ParsingUpstreamErrorView>,
) -> bool {
    match expected {
        Ok(a) => r matches Ok(x) && x.deep_view() == a,
        Err(e) => r matches Err(x) && x.deep_view() == e,
    }
}

/// Parses the lines of a block's body into a table, stopping at the first
/// line that fails.
fn build_arrival_table(body: &[u8], reference_day: i32) -> (r: Result<
    ArrivalTable,
    ParsingUpstreamError,
>)
    ensures
        match arrival_table(split(body@, NEWLINE), reference_day as int) {
            Ok(t) => r matches Ok(x) && x.deep_view() == t,
            Err(e) => r matches Err(x) && x.deep_view() == e,
        },
{
    let pieces = split_slices(body, NEWLINE);
    let ghost all = split(body@, NEWLINE);
    let mut table: ArrivalTable = OrdMap::new();
    let mut i: usize = 0;
    proof {
        assert(all.take(0) =~= Seq::<Seq<u8>>::empty());
        assert(pieces@.len() == slices_view(pieces@).len());
    }
    while i < pieces.len()
        invariant
            i <= pieces@.len(),
            pieces@.len() == all.len(),
            slices_view(pieces@) == all,
            all == split(body@, NEWLINE),
            arrival_table(all.take(i as int), reference_day as int) == Ok::<
                ArrivalTableView,
                ParsingUpstreamErrorView,
            >(table.deep_view()),
        decreases pieces@.len() - i,
    {
        proof {
            assert(all[i as int] == pieces@[i as int]@);
            assert(all.take(i + 1).drop_last() =~= all.take(i as int));
        }
        match parse_departure(pieces[i], reference_day) {
            Some(Ok(arrival)) => {
                insert_arrival(&mut table, arrival);
            },
            Some(Err(e)) => {
                proof {
                    lemma_arrival_table_fails(all, i + 1, reference_day as int);
                }
                return Err(e);
            },
            None => {},
        }
        i = i + 1;
    }
    proof {
        assert(all.take(i as int) =~= all);
    }
    Ok(table)
}

/// Parses one block of the arrival feed into the arrivals of its stop;
/// `reference_day` is the day number of the feed's reference date.
pub fn extract_stop_arrival_list_data(stop_lines: &[u8], stop_map: &StopMap, reference_day: i32) -> (r:
    Result<StopArrivals, ParsingUpstreamError>)
    ensures
        is_block_answer(r, stop_block(stop_lines@, stop_map.deep_view(), reference_day as int)),
        r matches Ok(found) ==> table_wf(found.arrivals.deep_view()),
{
    let n: usize = stop_lines.len();
    proof {
        assert(stop_lines@.subrange(0, n as int) =~= stop_lines@);
    }
    let first_new_line_pos: usize = column_end(stop_lines, NEWLINE, 0);
    if first_new_line_pos == n {
        return Err(ParsingUpstreamError::Error("invalid arrival data4".to_owned()));
    }
    let first_line = remove_trailing_newline(
        slice_subrange(stop_lines, 0, first_new_line_pos + 1),
    );
    proof {
        lemma_first_delim(stop_lines@, NEWLINE);
        assert(first_line@ =~= stop_lines@.subrange(0, first_new_line_pos as int));
        assert(first_line@.subrange(0, first_line@.len() as int) =~= first_line@);
    }
    let stop_id_comma_pos: usize = column_end(first_line, COMMA, 0);
    if stop_id_comma_pos == first_line.len() {
        return Err(ParsingUpstreamError::Error("invalid arrival data5".to_owned()));
    }
    let stop_id_bytes = slice_subrange(first_line, stop_id_comma_pos + 1, first_line.len());
    let arrival_lines = slice_subrange(stop_lines, first_new_line_pos + 1, n);
    proof {
        lemma_arrival_table_wf(split(arrival_lines@, NEWLINE), reference_day as int);
    }
    let arrivals = match build_arrival_table(arrival_lines, reference_day) {
        Ok(t) => t,
        Err(e) => {
            return Err(e);
        },
    };
    let stop_id = match decode(stop_id_bytes) {
        Some(id) => id,
        None => {
            return Err(ParsingUpstreamError::Utf8);
        },
    };
    let name = match TransportService::get_stop_name_by_id(stop_id.as_str(), stop_map) {
        Some(name) => (*name).clone(),
        None => {
            return Err(ParsingUpstreamError::Error("invalid arrival data6".to_owned()));
        },
    };
    Ok(StopArrivals { id: stop_id, name, arrivals })
}

/// Whether a piece holds a line feed, that is a header line and a body.
pub open spec fn has_line(piece: Seq<u8>) -> bool {
    first_delim(piece, NEWLINE) < piece.len()
}

/// The pieces among `pieces` that hold a line feed, in order.
pub open spec fn keep_with_line(pieces: Seq<Seq<u8>>) -> Seq<Seq<u8>>
    decreases pieces.len(),
{
    if pieces.len() == 0 {
        pieces
    } else if has_line(pieces.last()) {
        keep_with_line(pieces.drop_last()).push(pieces.last())
    } else {
        keep_with_line(pieces.drop_last())
    }
}

/// The blocks found in `s`: the pieces that the block marks cut it into,
/// without those that hold no line feed, which are fragments.
pub open spec fn stop_blocks(s: Seq<u8>) -> Seq<Seq<u8>> {
    keep_with_line(block_pieces(s))
}

/// Parses a piece of the arrival feed as a block, unless it is a fragment,
/// a piece that holds no line feed.
pub fn parse_block(piece: &[u8], stop_map: &StopMap, reference_day: i32) -> (r: Option<
    Result<StopArrivals, ParsingUpstreamError>,
>)
    ensures
        match r {
            Some(parsed) => {
                &&& has_line(piece@)
                &&& is_block_answer(
                    parsed,
                    stop_block(piece@, stop_map.deep_view(), reference_day as int),
                )
                &&& parsed matches Ok(found) ==> table_wf(found.arrivals.deep_view())
            },
            None => !has_line(piece@),
        },
{
    proof {
        assert(piece@.subrange(0, piece@.len() as int) =~= piece@);
    }
    let nl: usize = column_end(piece, NEWLINE, 0);
    if nl < piece.len() {
        Some(extract_stop_arrival_list_data(piece, stop_map, reference_day))
    } else {
        None
    }
}

/// Parses every block found in `line`, in order.
pub fn extract_arrival_stop_data_from_line(line: &[u8], stop_map: &StopMap, reference_day: i32) -> (r:
    Vec<Result<StopArrivals, ParsingUpstreamError>>)
    ensures
        r@.len() == stop_blocks(line@).len(),
        forall|i: int|
            0 <= i < r@.len() ==> is_block_answer(
                #[trigger] r@[i],
                stop_block(stop_blocks(line@)[i], stop_map.deep_view(), reference_day as int),
            ),
{
    let pieces = split_blocks(line);
    let ghost all = block_pieces(line@);
    let mut out: Vec<Result<StopArrivals, ParsingUpstreamError>> = Vec::new();
    let mut i: usize = 0;
    proof {
        assert(all.take(0) =~= Seq::<Seq<u8>>::empty());
        assert(pieces@.len() == slices_view(pieces@).len());
    }
    while i < pieces.len()
        invariant
            i <= pieces@.len(),
            pieces@.len() == all.len(),
            slices_view(pieces@) == all,
            all == block_pieces(line@),
            out@.len() == keep_with_line(all.take(i as int)).len(),
            forall|j: int|
                0 <= j < out@.len() ==> is_block_answer(
                    #[trigger] out@[j],
                    stop_block(
                        keep_with_line(all.take(i as int))[j],
                        stop_map.deep_view(),
                        reference_day as int,
                    ),
                ),
        decreases pieces@.len() - i,
    {
        proof {
            assert(all[i as int] == pieces@[i as int]@);
            assert(all.take(i + 1).drop_last() =~= all.take(i as int));
        }
        if let Some(parsed) = parse_block(pieces[i], stop_map, reference_day) {
            out.push(parsed);
        }
        i = i + 1;
    }
    proof {
        assert(all.take(i as int) =~= all);
    }
    out
}

/// Carry-forward: a line whose type and number columns are empty is
/// attributed to the type and number carried from earlier lines, which stay
/// as they are.
pub proof fn lemma_carry_forward(line: Seq<u8>, last: LastRouteDataView)
    requires
        column(line, SEMICOLON, 3) is Some,
        trimmed_text_of(split(line, SEMICOLON)[0]) == Some(Seq::<char>::empty()),
        trimmed_text_of(split(line, SEMICOLON)[3]) == Some(Seq::<char>::empty()),
        last.last_type is Some,
        last.last_number is Some,
    ensures
        route_line(line, last) == (
            last,
            route_record(line, last.last_type->0, last.last_number->0),
        ),
{
}

/// Carry-forward with no prior value: a line whose type column is empty
/// yields no record when no type is carried, and one whose number column is
/// empty yields none when no number is carried.
pub proof fn lemma_carry_forward_without_prior(line: Seq<u8>, last: LastRouteDataView)
    requires
        column(line, SEMICOLON, 3) is Some,
        (trimmed_text_of(split(line, SEMICOLON)[3]) == Some(Seq::<char>::empty())
            && last.last_type is None) || (trimmed_text_of(split(line, SEMICOLON)[0]) == Some(
            Seq::<char>::empty(),
        ) && last.last_number is None),
    ensures
        route_line(line, last).1 is None,
{
}

/// Double keying: a stop that a line yields is found under its id and under
/// its siri id, and it is the same record under both.
pub proof fn lemma_double_keying(st: (StopMapView, Option<Seq<char>>), line: Seq<u8>)
    requires
        stop_line(line, st.1) is Some,
    ensures
        ({
            let stop = stop_line(line, st.1)->0;
            let stops = stop_step(st, line).0;
            &&& stops.contains_key(stop.id) && stops[stop.id] == stop
            &&& stops.contains_key(stop.siri_id) && stops[stop.siri_id] == stop
        }),
{
}

/// Entry classification: a departure is a low entry exactly when its entry
/// code is the single letter `Z`.
pub proof fn lemma_entry_classification(line: Seq<u8>, day: int)
    requires
        arrival_line(line, day) is Ok,
    ensures
        arrival_line(line, day)->Ok_0.arrivals is LowEntry <==> split(line, COMMA)[6]
            == low_entry_code(),
{
}

/// A piece holds no block mark: cutting a piece again gives the piece
/// itself.
pub proof fn lemma_piece_is_one_block(s: Seq<u8>, k: int)
    requires
        0 <= k < block_pieces(s).len(),
    ensures
        block_pieces(block_pieces(s)[k]) == seq![block_pieces(s)[k]],
    decreases s.len(),
{
    let mark = block_mark();
    let i = first_occurrence(s, mark);
    lemma_first_occurrence(s, mark);
    if 0 <= i < s.len() {
        let rest = s.subrange(i + 1, s.len() as int);
        if k == 0 {
            let piece = s.subrange(0, i);
            assert(block_pieces(s)[0] == piece);
            assert forall|j: int| 0 <= j < piece.len() implies !occurs_at(piece, mark, j) by {
                if occurs_at(piece, mark, j) {
                    assert(s.subrange(j, j + mark.len()) =~= piece.subrange(j, j + mark.len()));
                    assert(occurs_at(s, mark, j));
                }
            }
            lemma_first_occurrence_is(piece, mark, piece.len() as int);
        } else {
            assert(block_pieces(s)[k] == block_pieces(rest)[k - 1]);
            lemma_piece_is_one_block(rest, k - 1);
        }
    } else {
        assert(block_pieces(s) == seq![s]);
    }
}

/// A line that starts with four semicolons leaves its number and its type
/// empty: parsed with nothing carried, it yields no record and carries
/// nothing on.
pub proof fn lemma_unattributed_line_is_dropped(line: Seq<u8>)
    requires
        line.len() >= 4,
        forall|i: int| 0 <= i < 4 ==> line[i] == SEMICOLON,
    ensures
        route_line(line, LastRouteDataView { last_type: None, last_number: None }) == (
            LastRouteDataView { last_type: None, last_number: None },
            None::<RouteDataView>,
        ),
{
    let cols = split(line, SEMICOLON);
    let n = line.len() as int;
    let l1 = line.subrange(1, n);
    let l2 = line.subrange(2, n);
    let l3 = line.subrange(3, n);
    lemma_first_column(line, SEMICOLON);
    lemma_first_column(l1, SEMICOLON);
    lemma_first_column(l2, SEMICOLON);
    lemma_first_column(l3, SEMICOLON);
    assert(l1.subrange(1, l1.len() as int) =~= l2);
    assert(l2.subrange(1, l2.len() as int) =~= l3);
    assert(first_delim(line, SEMICOLON) == 0);
    assert(first_delim(l1, SEMICOLON) == 0) by {
        assert(l1[0] == line[1]);
    }
    assert(first_delim(l2, SEMICOLON) == 0) by {
        assert(l2[0] == line[2]);
    }
    assert(first_delim(l3, SEMICOLON) == 0) by {
        assert(l3[0] == line[3]);
    }
    assert(cols.skip(1) == split(l1, SEMICOLON));
    assert(split(l1, SEMICOLON).skip(1) == split(l2, SEMICOLON));
    assert(split(l2, SEMICOLON).skip(1) == split(l3, SEMICOLON));
    assert(cols[3] == cols.skip(1).skip(1).skip(1)[0]);
    assert(cols.len() >= 4);
    let empty = Seq::<u8>::empty();
    assert(cols[3] =~= empty);
    assert(cols[0] =~= empty);
    lemma_ascii_text(empty);
    assert(text_of(empty) == Some(Seq::<char>::empty())) by {
        assert(Seq::new(0nat, |i: int| empty[i] as char) =~= Seq::<char>::empty());
    }
}

} // verus!
