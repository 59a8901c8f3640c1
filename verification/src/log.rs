//! The log of one session: a file with one JSON record a line.
use vstd::prelude::*;
use vstd::string::*;
use crate::event::{event_in, event_views, in_time_order, parse_event, texts, Event, EventV};
use crate::json::{json_document, opt_text, parse_json, said, Json, JsonV};
use crate::sorting::{
    is_rearrangement, sorted_by_places, stable_sort, stably_sorted, Ranked,
};
use crate::text::{
    is_blank, law_trimming_leaves_nothing_of_blanks, same_text, trim, trimmed,
};

verus! {

/// What a log says of its session besides the events.
pub struct SessionMeta {
    /// The working directory; empty where no record names one.
    pub cwd: String,
    pub ai_title: Option<String>,
    pub custom_title: Option<String>,
}

/// The records of a log: what the lines that are JSON documents denote; blank
/// lines and lines that are none are passed over.
pub open spec fn records_in(lines: Seq<Seq<char>>) -> Seq<JsonV>
    decreases lines.len(),
{
    if lines.len() == 0 {
        seq![]
    } else {
        let first = records_in(lines.drop_last());
        match json_document(lines.last()) {
            Some(v) if trimmed(lines.last()).len() > 0 => first.push(v),
            _ => first,
        }
    }
}

/// JSON values over plain sequences.
pub open spec fn json_views(v: Seq<Json>) -> Seq<JsonV> {
    Seq::new(v.len(), |i: int| v[i]@)
}

/// The events that records tell of, in the order of the records.
pub open spec fn events_in(records: Seq<JsonV>) -> Seq<EventV>
    decreases records.len(),
{
    if records.len() == 0 {
        seq![]
    } else {
        let first = events_in(records.drop_last());
        match event_in(records.last()) {
            Some(e) => first.push(e),
            None => first,
        }
    }
}

/// The first working directory that records name.
pub open spec fn first_cwd(records: Seq<JsonV>) -> Option<Seq<char>>
    decreases records.len(),
{
    if records.len() == 0 {
        None
    } else {
        match first_cwd(records.drop_last()) {
            Some(c) => Some(c),
            None => records.last().text_at("cwd"@),
        }
    }
}

/// The title that the last record of a type with one gives.
pub open spec fn last_title(
    records: Seq<JsonV>,
    record_type: Seq<char>,
    key: Seq<char>,
) -> Option<Seq<char>>
    decreases records.len(),
{
    if records.len() == 0 {
        None
    } else {
        let v = records.last();
        match v.text_at(key) {
            Some(t) if v.text_at("type"@) == Some(record_type) => Some(t),
            _ => last_title(records.drop_last(), record_type, key),
        }
    }
}

/// What records say of their session besides the events.
pub open spec fn meta_of(records: Seq<JsonV>, m: SessionMeta) -> bool {
    &&& m.cwd@ == match first_cwd(records) {
        Some(c) => c,
        None => Seq::<char>::empty(),
    }
    &&& opt_text(m.ai_title) == last_title(records, "ai-title"@, "aiTitle"@)
    &&& opt_text(m.custom_title) == last_title(records, "custom-title"@, "customTitle"@)
}

/// `events` are those of the records by time, and those of one time in the
/// order of the records.
pub open spec fn events_by_time(records: Seq<JsonV>, events: Seq<Event>) -> bool {
    exists|found: Seq<Event>|
        event_views(found) == events_in(records) && #[trigger] stably_sorted(found, events)
}

/// The lines that are JSON documents, blank ones aside.
pub open spec fn is_record() -> spec_fn(Seq<char>) -> bool {
    |l: Seq<char>| !is_blank(l) && json_document(l) is Some
}

/// What a line denotes.
pub open spec fn record_in() -> spec_fn(Seq<char>) -> JsonV {
    |l: Seq<char>| json_document(l)->0
}

/// The records that tell of an event.
pub open spec fn tells_event() -> spec_fn(JsonV) -> bool {
    |v: JsonV| event_in(v) is Some
}

/// The event that a record tells of.
pub open spec fn event_told() -> spec_fn(JsonV) -> EventV {
    |v: JsonV| event_in(v)->0
}

/// Every line that is a JSON document and not blank is a record, every record
/// that tells of an event gives one, and all else is passed over.
pub proof fn law_lines_and_records_are_passed_over_or_read(
    lines: Seq<Seq<char>>,
    records: Seq<JsonV>,
)
    ensures
        records_in(lines) == lines.filter(is_record()).map_values(record_in()),
        events_in(records) == records.filter(tells_event()).map_values(event_told()),
{
    lemma_records_in(lines);
    lemma_events_in(records);
}

proof fn lemma_records_in(lines: Seq<Seq<char>>)
    ensures
        records_in(lines) == lines.filter(is_record()).map_values(record_in()),
    decreases lines.len(),
{
    reveal(Seq::filter);
    if lines.len() > 0 {
        let first = lines.drop_last();
        let l = lines.last();
        lemma_records_in(first);
        law_trimming_leaves_nothing_of_blanks(l);
        assert(first.filter(is_record()).push(l).map_values(record_in()) =~= first.filter(
            is_record(),
        ).map_values(record_in()).push(record_in()(l)));
    } else {
        assert(lines.filter(is_record()).map_values(record_in()) =~= records_in(lines));
    }
}

proof fn lemma_events_in(records: Seq<JsonV>)
    ensures
        events_in(records) == records.filter(tells_event()).map_values(event_told()),
    decreases records.len(),
{
    reveal(Seq::filter);
    if records.len() > 0 {
        let first = records.drop_last();
        let v = records.last();
        lemma_events_in(first);
        assert(first.filter(tells_event()).push(v).map_values(event_told()) =~= first.filter(
            tells_event(),
        ).map_values(event_told()).push(event_told()(v)));
    } else {
        assert(records.filter(tells_event()).map_values(event_told()) =~= events_in(records));
    }
}

/// The record at a place is the first with a working directory.
pub open spec fn names_cwd_first(records: Seq<JsonV>, i: int) -> bool {
    &&& 0 <= i < records.len() && said(records[i].member("cwd"@)) is Some
    &&& forall|j: int| 0 <= j < i ==> said((#[trigger] records[j]).member("cwd"@)) is None
}

/// A record of a type gives a title.
pub open spec fn gives_title(v: JsonV, record_type: Seq<char>, key: Seq<char>) -> bool {
    said(v.member("type"@)) == Some(record_type) && said(v.member(key)) is Some
}

/// The record at a place is the last of a type that gives a title.
pub open spec fn gives_title_last(
    records: Seq<JsonV>,
    record_type: Seq<char>,
    key: Seq<char>,
    i: int,
) -> bool {
    &&& 0 <= i < records.len() && gives_title(records[i], record_type, key)
    &&& forall|j: int| i < j < records.len() ==> !gives_title(
        #[trigger] records[j],
        record_type,
        key,
    )
}

proof fn lemma_first_cwd(records: Seq<JsonV>)
    ensures
        forall|i: int| #[trigger]
            names_cwd_first(records, i) ==> first_cwd(records) == said(records[i].member("cwd"@)),
        (forall|i: int|
            0 <= i < records.len() ==> said((#[trigger] records[i]).member("cwd"@)) is None)
            ==> first_cwd(records) is None,
    decreases records.len(),
{
    if records.len() > 0 {
        let first = records.drop_last();
        lemma_first_cwd(first);
        let n = records.len() - 1;
        assert(forall|i: int| 0 <= i < first.len() ==> first[i] == records[i]);
        assert forall|i: int| #[trigger]
            names_cwd_first(records, i) implies first_cwd(records) == said(
            records[i].member("cwd"@),
        ) by {
            if i < n {
                assert(names_cwd_first(first, i)) by {
                    assert forall|j: int| 0 <= j < i implies said(
                        (#[trigger] first[j]).member("cwd"@),
                    ) is None by {
                        assert(records[j] == first[j]);
                    }
                }
            } else {
                assert forall|j: int| 0 <= j < first.len() implies said(
                    (#[trigger] first[j]).member("cwd"@),
                ) is None by {
                    assert(records[j] == first[j]);
                }
            }
        }
        if forall|i: int|
            0 <= i < records.len() ==> said((#[trigger] records[i]).member("cwd"@)) is None {
            assert forall|j: int| 0 <= j < first.len() implies said(
                (#[trigger] first[j]).member("cwd"@),
            ) is None by {
                assert(records[j] == first[j]);
            }
            assert(said(records[n].member("cwd"@)) is None);
        }
    }
}

proof fn lemma_last_title(records: Seq<JsonV>, record_type: Seq<char>, key: Seq<char>)
    ensures
        forall|i: int| #[trigger]
            gives_title_last(records, record_type, key, i) ==> last_title(
                records,
                record_type,
                key,
            ) == said(records[i].member(key)),
        (forall|i: int|
            0 <= i < records.len() ==> !gives_title(#[trigger] records[i], record_type, key))
            ==> last_title(records, record_type, key) is None,
    decreases records.len(),
{
    if records.len() > 0 {
        let first = records.drop_last();
        let n = records.len() - 1;
        lemma_last_title(first, record_type, key);
        assert forall|i: int| #[trigger]
            gives_title_last(records, record_type, key, i) implies last_title(
            records,
            record_type,
            key,
        ) == said(records[i].member(key)) by {
            if i < n {
                assert(!gives_title(records[n], record_type, key));
                assert(gives_title_last(first, record_type, key, i)) by {
                    assert(first[i] == records[i]);
                    assert forall|j: int| i < j < first.len() implies !gives_title(
                        #[trigger] first[j],
                        record_type,
                        key,
                    ) by {
                        assert(records[j] == first[j]);
                    }
                }
            }
        }
        if forall|i: int|
            0 <= i < records.len() ==> !gives_title(#[trigger] records[i], record_type, key) {
            assert(!gives_title(records[n], record_type, key));
            assert forall|j: int| 0 <= j < first.len() implies !gives_title(
                #[trigger] first[j],
                record_type,
                key,
            ) by {
                assert(records[j] == first[j]);
            }
        }
    }
}

/// Of a session's records, the first with a working directory tells the
/// session's, and the last of each kind of title tells that title; what no
/// record tells is missing.
pub proof fn law_first_directory_and_last_titles_are_told(records: Seq<JsonV>, m: SessionMeta)
    requires
        meta_of(records, m),
    ensures
        forall|i: int| #[trigger]
            names_cwd_first(records, i) ==> said(records[i].member("cwd"@)) == Some(m.cwd@),
        (forall|i: int|
            0 <= i < records.len() ==> said((#[trigger] records[i]).member("cwd"@)) is None)
            ==> m.cwd@.len() == 0,
        forall|i: int| #[trigger]
            gives_title_last(records, "ai-title"@, "aiTitle"@, i) ==> opt_text(m.ai_title) == said(
                records[i].member("aiTitle"@),
            ),
        (forall|i: int|
            0 <= i < records.len() ==> !gives_title(
                #[trigger] records[i],
                "ai-title"@,
                "aiTitle"@,
            )) ==> m.ai_title is None,
        forall|i: int| #[trigger]
            gives_title_last(records, "custom-title"@, "customTitle"@, i) ==> opt_text(
                m.custom_title,
            ) == said(records[i].member("customTitle"@)),
        (forall|i: int|
            0 <= i < records.len() ==> !gives_title(
                #[trigger] records[i],
                "custom-title"@,
                "customTitle"@,
            )) ==> m.custom_title is None,
{
    lemma_first_cwd(records);
    lemma_last_title(records, "ai-title"@, "aiTitle"@);
    lemma_last_title(records, "custom-title"@, "customTitle"@);
}

/// The events of a log are those that its records tell of, each once, in the
/// order of time, and those of one time in the order of the records.
pub proof fn law_events_come_by_time(records: Seq<JsonV>, events: Seq<Event>)
    requires
        events_by_time(records, events),
    ensures
        exists|places: Seq<int>| #[trigger]
            is_rearrangement(places, events_in(records).len()) && events.len() == events_in(
                records,
            ).len() && (forall|i: int|
                0 <= i < events.len() ==> (#[trigger] events[i])@ == events_in(records)[places[i]])
                && (forall|i: int, j: int|
                0 <= i < j < events.len() ==> (#[trigger] events[i]).at.rank() < (
                #[trigger] events[j]).at.rank() || (events[i].at.rank() == events[j].at.rank()
                    && places[i] < places[j])),
{
    let found = choose|found: Seq<Event>|
        event_views(found) == events_in(records) && #[trigger] stably_sorted(found, events);
    let places = choose|places: Seq<int>| sorted_by_places(found, events, places);
    assert(is_rearrangement(places, events_in(records).len()));
    assert forall|i: int| 0 <= i < events.len() implies (#[trigger] events[i])@ == events_in(
        records,
    )[places[i]] by {
        assert(events[i] == found[places[i]]);
        assert(event_views(found)[places[i]] == found[places[i]]@);
    }
    assert forall|i: int, j: int| 0 <= i < j < events.len() implies (
    #[trigger] events[i]).at.rank() < (#[trigger] events[j]).at.rank() || (events[i].at.rank()
        == events[j].at.rank() && places[i] < places[j]) by {
        assert(events[i].rank() < events[j].rank() || (events[i].rank() == events[j].rank()
            && places[i] < places[j]));
    }
}

proof fn lemma_sorted_in_time_order(found: Seq<Event>, events: Seq<Event>)
    requires
        stably_sorted(found, events),
        forall|i: int| 0 <= i < found.len() ==> (#[trigger] found[i]).at.valid(),
    ensures
        in_time_order(event_views(events)),
{
    let places = choose|places: Seq<int>| sorted_by_places(found, events, places);
    let views = event_views(events);
    assert forall|i: int| 0 <= i < views.len() implies (#[trigger] views[i]).at.valid() by {
        assert(events[i] == found[places[i]]);
    }
    assert forall|i: int, j: int| 0 <= i <= j < views.len() implies (#[trigger] views[i]).at.rank()
        <= (#[trigger] views[j]).at.rank() by {
        if i < j {
            assert(events[i].rank() <= events[j].rank());
        }
    }
}

/// Gathers what the records of a log say.
pub fn collect_session(records: &Vec<Json>) -> (r: (SessionMeta, Vec<Event>))
    ensures
        meta_of(json_views(records@), r.0),
        events_by_time(json_views(records@), r.1@),
        in_time_order(event_views(r.1@)),
{
    let ghost all = json_views(records@);
    let mut cwd: Option<String> = None;
    let mut ai_title: Option<String> = None;
    let mut custom_title: Option<String> = None;
    let mut events: Vec<Event> = Vec::new();
    assert(event_views(events@) =~= events_in(all.take(0)));
    for i in 0..records.len()
        invariant
            all == json_views(records@),
            opt_text(cwd) == first_cwd(all.take(i as int)),
            opt_text(ai_title) == last_title(all.take(i as int), "ai-title"@, "aiTitle"@),
            opt_text(custom_title) == last_title(
                all.take(i as int),
                "custom-title"@,
                "customTitle"@,
            ),
            event_views(events@) == events_in(all.take(i as int)),
            forall|j: int| 0 <= j < events@.len() ==> (#[trigger] events@[j]).at.valid(),
    {
        let ghost found = event_views(events@);
        let v = &records[i];
        proof {
            assert(all.take(i + 1).drop_last() =~= all.take(i as int));
            assert(all.take(i + 1).last() == v@);
            reveal_strlit("ai-title");
            reveal_strlit("custom-title");
            assert("ai-title"@[0] != "custom-title"@[0]);
        }
        if cwd.is_none() {
            cwd = v.string_at("cwd");
        }
        if let Some(t) = v.string_at("type") {
            if same_text(t.as_str(), "ai-title") {
                if let Some(x) = v.string_at("aiTitle") {
                    ai_title = Some(x);
                }
            } else if same_text(t.as_str(), "custom-title") {
                if let Some(x) = v.string_at("customTitle") {
                    custom_title = Some(x);
                }
            }
        }
        if let Some(e) = parse_event(v) {
            proof {
                use_type_invariant(&e.at);
            }
            events.push(e);
            assert(event_views(events@) =~= found.push(e@));
        }
    }
    assert(all.take(all.len() as int) =~= all);
    let ghost found = events@;
    stable_sort(&mut events);
    proof {
        lemma_sorted_in_time_order(found, events@);
    }
    let cwd = match cwd {
        Some(c) => c,
        None => String::new(),
    };
    (SessionMeta { cwd, ai_title, custom_title }, events)
}

/// Reads the log of a session from its lines.
pub fn process_jsonl(lines: &Vec<String>) -> (r: (SessionMeta, Vec<Event>))
    ensures
        meta_of(records_in(texts(lines@)), r.0),
        events_by_time(records_in(texts(lines@)), r.1@),
        in_time_order(event_views(r.1@)),
{
    let ghost all = texts(lines@);
    let mut records: Vec<Json> = Vec::new();
    assert(json_views(records@) =~= records_in(all.take(0)));
    for i in 0..lines.len()
        invariant
            all == texts(lines@),
            json_views(records@) == records_in(all.take(i as int)),
    {
        let ghost read = json_views(records@);
        proof {
            assert(all.take(i + 1).drop_last() =~= all.take(i as int));
            assert(all.take(i + 1).last() == lines@[i as int]@);
        }
        if !trim(lines[i].as_str()).is_empty() {
            if let Some(v) = parse_json(lines[i].as_str()) {
                records.push(v);
                assert(json_views(records@) =~= read.push(v@));
            }
        }
    }
    assert(all.take(all.len() as int) =~= all);
    collect_session(&records)
}

/// The title of a session: the custom one before the other.
pub open spec fn session_title(meta: SessionMeta) -> Option<Seq<char>> {
    match opt_text(meta.custom_title) {
        Some(t) => Some(t),
        None => opt_text(meta.ai_title),
    }
}

/// The title of a session: the custom one before the other.
pub fn title_of(meta: &SessionMeta) -> (r: Option<String>)
    ensures
        opt_text(r) == session_title(*meta),
{
    match &meta.custom_title {
        Some(t) => Some(t.clone()),
        None => match &meta.ai_title {
            Some(t) => Some(t.clone()),
            None => None,
        },
    }
}

} // verus!
