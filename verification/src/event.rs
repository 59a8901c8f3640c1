//! Events of a session: the records of its log that carry a time.
use vstd::prelude::*;
use vstd::string::*;
use crate::json::{counted, listed, opt_text, said, Json, JsonV};
use crate::sorting::Ranked;
use crate::text::same_text;
use crate::time::{instant_read, read_rfc3339, Instant};
use crate::tokens::{Tokens, TokensV};

verus! {

/// One event of a session.
pub struct Event {
    pub at: Instant,
    pub model: Option<String>,
    pub skill: Option<String>,
    pub plugin: Option<String>,
    pub git_branch: Option<String>,
    pub stop_reason: Option<String>,
    /// Types of the content blocks of an assistant turn.
    pub content_types: Vec<String>,
    /// Names of the tools used in an assistant turn.
    pub tools: Vec<String>,
    pub tokens: Tokens,
}

/// One event over plain sequences.
pub struct EventV {
    pub at: Instant,
    pub model: Option<Seq<char>>,
    pub skill: Option<Seq<char>>,
    pub plugin: Option<Seq<char>>,
    pub git_branch: Option<Seq<char>>,
    pub stop_reason: Option<Seq<char>>,
    pub content_types: Seq<Seq<char>>,
    pub tools: Seq<Seq<char>>,
    pub tokens: TokensV,
}

/// Texts as sequences of characters.
pub open spec fn texts(v: Seq<String>) -> Seq<Seq<char>> {
    Seq::new(v.len(), |i: int| v[i]@)
}

impl View for Event {
    type V = EventV;

    open spec fn view(&self) -> EventV {
        EventV {
            at: self.at,
            model: opt_text(self.model),
            skill: opt_text(self.skill),
            plugin: opt_text(self.plugin),
            git_branch: opt_text(self.git_branch),
            stop_reason: opt_text(self.stop_reason),
            content_types: texts(self.content_types@),
            tools: texts(self.tools@),
            tokens: self.tokens@,
        }
    }
}

/// Events over plain sequences.
pub open spec fn event_views(v: Seq<Event>) -> Seq<EventV> {
    Seq::new(v.len(), |i: int| v[i]@)
}

/// Events follow each other in time.
pub open spec fn in_time_order(events: Seq<EventV>) -> bool {
    &&& forall|i: int| 0 <= i < events.len() ==> (#[trigger] events[i]).at.valid()
    &&& forall|i: int, j: int|
        0 <= i <= j < events.len() ==> (#[trigger] events[i]).at.rank() <= (
        #[trigger] events[j]).at.rank()
}

impl Ranked for Event {
    open spec fn rank(&self) -> int {
        self.at.rank()
    }

    fn ranks_after(&self, other: &Event) -> (r: bool) {
        !self.at.not_after(&other.at)
    }
}

/// The types of content blocks, in their order; a block without one is left
/// out.
pub open spec fn block_types(blocks: Seq<JsonV>) -> Seq<Seq<char>>
    decreases blocks.len(),
{
    if blocks.len() == 0 {
        seq![]
    } else {
        let first = block_types(blocks.drop_last());
        match blocks.last().text_at("type"@) {
            Some(t) => first.push(t),
            None => first,
        }
    }
}

/// The names of the tools that content blocks use, in their order.
pub open spec fn block_tools(blocks: Seq<JsonV>) -> Seq<Seq<char>>
    decreases blocks.len(),
{
    if blocks.len() == 0 {
        seq![]
    } else {
        let first = block_tools(blocks.drop_last());
        let last = blocks.last();
        match last.text_at("name"@) {
            Some(n) if last.text_at("type"@) == Some("tool_use"@) => first.push(n),
            _ => first,
        }
    }
}

/// The token counts in a usage record. Cache writes are split by lifetime
/// where the record splits them; else they all count as short-lived. Without
/// a list of iterations there was one.
pub open spec fn usage_tokens(u: JsonV) -> TokensV {
    let split = u.member("cache_creation"@);
    TokensV {
        input: u.count_at("input_tokens"@) as int,
        output: u.count_at("output_tokens"@) as int,
        cache_read: u.count_at("cache_read_input_tokens"@) as int,
        cache_create_5m: (match split {
            Some(c) => c.count_at("ephemeral_5m_input_tokens"@),
            None => u.count_at("cache_creation_input_tokens"@),
        }) as int,
        cache_create_1h: (match split {
            Some(c) => c.count_at("ephemeral_1h_input_tokens"@),
            None => 0,
        }) as int,
        iterations: match u.items_at("iterations"@) {
            Some(a) => a.len() as int,
            None => 1,
        },
    }
}

/// The message of an assistant's record.
pub open spec fn assistant_message(v: JsonV) -> Option<JsonV> {
    if v.text_at("type"@) == Some("assistant"@) {
        v.member("message"@)
    } else {
        None
    }
}

/// The event that a record with a type tells of, at a given time. Model, stop
/// reason, content and usage are those of an assistant's message.
pub open spec fn event_at(v: JsonV, at: Instant) -> Option<EventV> {
    let message = assistant_message(v);
    match v.text_at("type"@) {
        None => None,
        Some(_) => Some(
            EventV {
                at,
                model: match message {
                    Some(m) => m.text_at("model"@),
                    None => None,
                },
                skill: v.text_at("attributionSkill"@),
                plugin: v.text_at("attributionPlugin"@),
                git_branch: v.text_at("gitBranch"@),
                stop_reason: match message {
                    Some(m) => m.text_at("stop_reason"@),
                    None => None,
                },
                content_types: match message {
                    Some(m) => match m.items_at("content"@) {
                        Some(blocks) => block_types(blocks),
                        None => seq![],
                    },
                    None => seq![],
                },
                tools: match message {
                    Some(m) => match m.items_at("content"@) {
                        Some(blocks) => block_tools(blocks),
                        None => seq![],
                    },
                    None => seq![],
                },
                tokens: match message {
                    Some(m) => match m.member("usage"@) {
                        Some(u) => usage_tokens(u),
                        None => TokensV::zero(),
                    },
                    None => TokensV::zero(),
                },
            },
        ),
    }
}

/// The event that a record tells of: one with a time in RFC 3339 form and a
/// type.
pub open spec fn event_in(v: JsonV) -> Option<EventV> {
    match v.text_at("timestamp"@) {
        Some(t) => match instant_read(t) {
            Some(at) => event_at(v, at),
            None => None,
        },
        None => None,
    }
}

/// Each count of a usage record is read from the member of its name. Cache
/// writes are read from `cache_creation`, by lifetime; where that is missing,
/// all of them from one count, as short-lived. Calls are the iterations that
/// are listed, or one.
pub proof fn law_usage_is_read_count_by_count(u: JsonV)
    ensures
        usage_tokens(u).input == counted(u.member("input_tokens"@)),
        usage_tokens(u).output == counted(u.member("output_tokens"@)),
        usage_tokens(u).cache_read == counted(u.member("cache_read_input_tokens"@)),
        u.member("cache_creation"@) matches Some(c) ==> usage_tokens(u).cache_create_5m == counted(
            c.member("ephemeral_5m_input_tokens"@),
        ) && usage_tokens(u).cache_create_1h == counted(c.member("ephemeral_1h_input_tokens"@)),
        u.member("cache_creation"@) is None ==> usage_tokens(u).cache_create_5m == counted(
            u.member("cache_creation_input_tokens"@),
        ) && usage_tokens(u).cache_create_1h == 0,
        listed(u.member("iterations"@)) matches Some(a) ==> usage_tokens(u).iterations == a.len(),
        listed(u.member("iterations"@)) is None ==> usage_tokens(u).iterations == 1,
{
}

/// Where a usage record splits the cache writes by lifetime, its other count of
/// them makes no difference: two records that differ in that count alone have
/// the same tokens, and the cache writes are those of the split together.
pub proof fn law_split_cache_writes_are_counted_once(a: JsonV, b: JsonV)
    requires
        a.member("cache_creation"@) is Some,
        forall|k: Seq<char>|
            k != "cache_creation_input_tokens"@ ==> #[trigger] a.member(k) == b.member(k),
    ensures
        usage_tokens(a) == usage_tokens(b),
        usage_tokens(a).cache_create_5m + usage_tokens(a).cache_create_1h == counted(
            (a.member("cache_creation"@)->0).member("ephemeral_5m_input_tokens"@),
        ) + counted((a.member("cache_creation"@)->0).member("ephemeral_1h_input_tokens"@)),
{
    reveal_strlit("cache_creation_input_tokens");
    reveal_strlit("cache_creation");
    reveal_strlit("input_tokens");
    reveal_strlit("output_tokens");
    reveal_strlit("cache_read_input_tokens");
    reveal_strlit("iterations");
    assert("cache_creation_input_tokens"@.len() == 27);
    assert(a.member("cache_creation"@) == b.member("cache_creation"@));
    assert(a.member("input_tokens"@) == b.member("input_tokens"@));
    assert(a.member("output_tokens"@) == b.member("output_tokens"@));
    assert(a.member("cache_read_input_tokens"@) == b.member("cache_read_input_tokens"@));
    assert(a.member("iterations"@) == b.member("iterations"@));
}

/// The blocks with a type.
pub open spec fn has_type() -> spec_fn(JsonV) -> bool {
    |b: JsonV| said(b.member("type"@)) is Some
}

/// The blocks that use a tool by name.
pub open spec fn names_tool() -> spec_fn(JsonV) -> bool {
    |b: JsonV| said(b.member("type"@)) == Some("tool_use"@) && said(b.member("name"@)) is Some
}

/// The type of a block.
pub open spec fn type_in() -> spec_fn(JsonV) -> Seq<char> {
    |b: JsonV| said(b.member("type"@))->0
}

/// The name in a block.
pub open spec fn name_in() -> spec_fn(JsonV) -> Seq<char> {
    |b: JsonV| said(b.member("name"@))->0
}

/// Content blocks tell their types, those that have one, and the tools that they
/// use, those of the type for it that have a name; all in the order of the
/// blocks.
pub proof fn law_blocks_tell_types_and_tools(blocks: Seq<JsonV>)
    ensures
        block_types(blocks) == blocks.filter(has_type()).map_values(type_in()),
        block_tools(blocks) == blocks.filter(names_tool()).map_values(name_in()),
    decreases blocks.len(),
{
    reveal(Seq::filter);
    if blocks.len() > 0 {
        let first = blocks.drop_last();
        let b = blocks.last();
        law_blocks_tell_types_and_tools(first);
        assert(first.filter(has_type()).push(b).map_values(type_in()) =~= first.filter(
            has_type(),
        ).map_values(type_in()).push(type_in()(b)));
        assert(first.filter(names_tool()).push(b).map_values(name_in()) =~= first.filter(
            names_tool(),
        ).map_values(name_in()).push(name_in()(b)));
    } else {
        assert(blocks.filter(has_type()).map_values(type_in()) =~= block_types(blocks));
        assert(blocks.filter(names_tool()).map_values(name_in()) =~= block_tools(blocks));
    }
}

/// A record with a type tells of an event. Skill, plugin and branch are read
/// from the record; model, stop reason, content and usage from the message of
/// an assistant's record, and from no other.
pub proof fn law_records_are_read_member_by_member(v: JsonV, at: Instant)
    ensures
        event_at(v, at) is Some <==> said(v.member("type"@)) is Some,
        event_at(v, at) matches Some(e) ==> {
            &&& e.at == at
            &&& e.skill == said(v.member("attributionSkill"@))
            &&& e.plugin == said(v.member("attributionPlugin"@))
            &&& e.git_branch == said(v.member("gitBranch"@))
            &&& said(v.member("type"@)) != Some("assistant"@) || v.member("message"@) is None ==> {
                &&& e.model is None
                &&& e.stop_reason is None
                &&& e.content_types.len() == 0
                &&& e.tools.len() == 0
                &&& e.tokens == TokensV::zero()
            }
            &&& said(v.member("type"@)) == Some("assistant"@) ==> (v.member(
                "message"@,
            ) matches Some(m) ==> {
                &&& e.model == said(m.member("model"@))
                &&& e.stop_reason == said(m.member("stop_reason"@))
                &&& listed(m.member("content"@)) matches Some(blocks) ==> e.content_types
                    == block_types(blocks) && e.tools == block_tools(blocks)
                &&& listed(m.member("content"@)) is None ==> e.content_types.len() == 0
                    && e.tools.len() == 0
                &&& m.member("usage"@) matches Some(u) ==> e.tokens == usage_tokens(u)
                &&& m.member("usage"@) is None ==> e.tokens == TokensV::zero()
            })
        },
{
}

/// A record tells of an event at the time of its timestamp, where that can be
/// read, and of none where it cannot.
pub proof fn law_the_timestamp_dates_the_event(v: JsonV)
    ensures
        match said(v.member("timestamp"@)) {
            Some(t) => match instant_read(t) {
                Some(at) => event_in(v) == event_at(v, at),
                None => event_in(v) is None,
            },
            None => event_in(v) is None,
        },
{
}

/// Types and tools of content blocks.
fn read_blocks(blocks: &Vec<Json>) -> (r: (Vec<String>, Vec<String>))
    ensures
        forall|items: Seq<JsonV>|
            items.len() == blocks@.len() && (forall|i: int|
                0 <= i < items.len() ==> #[trigger] items[i] == blocks@[i]@) ==> texts(r.0@)
                == #[trigger] block_types(items) && texts(r.1@) == block_tools(items),
{
    let mut types: Vec<String> = Vec::new();
    let mut tools: Vec<String> = Vec::new();
    let ghost items = Seq::new(blocks@.len(), |i: int| blocks@[i]@);
    assert(texts(types@) =~= block_types(items.take(0)));
    assert(texts(tools@) =~= block_tools(items.take(0)));
    for i in 0..blocks.len()
        invariant
            items == Seq::new(blocks@.len(), |i: int| blocks@[i]@),
            texts(types@) == block_types(items.take(i as int)),
            texts(tools@) == block_tools(items.take(i as int)),
    {
        let ghost old_types = texts(types@);
        let ghost old_tools = texts(tools@);
        proof {
            assert(items.take(i + 1).drop_last() =~= items.take(i as int));
            assert(items.take(i + 1).last() == blocks@[i as int]@);
        }
        if let Some(t) = blocks[i].string_at("type") {
            if same_text(t.as_str(), "tool_use") {
                if let Some(n) = blocks[i].string_at("name") {
                    tools.push(n);
                    assert(texts(tools@) =~= old_tools.push(n@));
                }
            }
            types.push(t);
            assert(texts(types@) =~= old_types.push(t@));
        }
    }
    proof {
        assert(items.take(items.len() as int) =~= items);
        assert forall|other: Seq<JsonV>|
            other.len() == blocks@.len() && (forall|i: int|
                0 <= i < other.len() ==> #[trigger] other[i] == blocks@[i]@) implies texts(types@)
            == #[trigger] block_types(other) && texts(tools@) == block_tools(other) by {
            assert(other =~= items);
        }
    }
    (types, tools)
}

/// Token counts of a usage record.
fn read_usage(u: &Json) -> (r: Tokens)
    ensures
        r@ == usage_tokens(u@),
{
    let (short, long) = match u.get("cache_creation") {
        Some(c) => (c.u64_at("ephemeral_5m_input_tokens"), c.u64_at("ephemeral_1h_input_tokens")),
        None => (u.u64_at("cache_creation_input_tokens"), 0),
    };
    let iterations: u64 = match u.get("iterations") {
        Some(x) => match x.as_array() {
            Some(a) => a.len() as u64,
            None => 1,
        },
        None => 1,
    };
    Tokens {
        input: u.u64_at("input_tokens"),
        output: u.u64_at("output_tokens"),
        cache_create_5m: short,
        cache_create_1h: long,
        cache_read: u.u64_at("cache_read_input_tokens"),
        iterations,
    }
}

/// The event that a record tells of, at a given time.
pub fn parse_event_at(v: &Json, at: Instant) -> (r: Option<Event>)
    ensures
        match r {
            Some(e) => event_at(v@, at) == Some(e@),
            None => event_at(v@, at) is None,
        },
{
    let typ = match v.string_at("type") {
        Some(t) => t,
        None => return None,
    };
    let mut model: Option<String> = None;
    let mut stop_reason: Option<String> = None;
    let mut content_types: Vec<String> = Vec::new();
    let mut tools: Vec<String> = Vec::new();
    let mut tokens = Tokens::default();
    proof {
        assert(texts(content_types@) =~= seq![]);
        assert(texts(tools@) =~= seq![]);
    }
    if same_text(typ.as_str(), "assistant") {
        if let Some(m) = v.get("message") {
            model = m.string_at("model");
            stop_reason = m.string_at("stop_reason");
            if let Some(c) = m.get("content") {
                if let Some(blocks) = c.as_array() {
                    let (a, b) = read_blocks(blocks);
                    content_types = a;
                    tools = b;
                    proof {
                        let items = m@.items_at("content"@)->0;
                        assert(texts(content_types@) == block_types(items));
                    }
                }
            }
            if let Some(u) = m.get("usage") {
                tokens = read_usage(u);
            }
        }
    }
    Some(
        Event {
            at,
            model,
            skill: v.string_at("attributionSkill"),
            plugin: v.string_at("attributionPlugin"),
            git_branch: v.string_at("gitBranch"),
            stop_reason,
            content_types,
            tools,
            tokens,
        },
    )
}

/// The event that a record tells of.
pub fn parse_event(v: &Json) -> (r: Option<Event>)
    ensures
        match r {
            Some(e) => event_in(v@) == Some(e@),
            None => event_in(v@) is None,
        },
{
    let ts = match v.string_at("timestamp") {
        Some(t) => t,
        None => return None,
    };
    match read_rfc3339(ts.as_str()) {
        Some(at) => parse_event_at(v, at),
        None => None,
    }
}

} // verus!
