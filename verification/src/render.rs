//! The texts of a report: the tables of the CSV files, the summary for the
//! terminal and the page. Numbers with a fraction come as texts.
use vstd::prelude::*;
use vstd::string::*;
use crate::event::texts;
use crate::report::{DailyStat, ModelStat, NamedStat, ProjectStat, Report, Summary};
use crate::scan::SessionStat;
use crate::text::{
    decimal, filled, filled_right, law_a_part_occurs, law_replacing_goes_from_place_to_place,
    lowercase, occurs, push_decimal, push_filled, push_padded_right, quote, quoted, replace_all,
    replaced, same_text, to_lowercase,
};
use crate::tokens::{Tokens, TokensV};

verus! {

/// Seconds as hours, minutes and seconds.
pub open spec fn hms_text(secs: nat) -> Seq<char> {
    filled(decimal(secs / 3600), 4, ' ') + "h "@ + filled(decimal(secs % 3600 / 60), 2, '0')
        + "m "@ + filled(decimal(secs % 60), 2, '0') + "s"@
}

/// Hours, minutes and seconds are told as they are: minutes and seconds of two
/// digits below sixty, and as many hours as there are.
pub proof fn law_time_is_told_in_parts(h: nat, m: nat, s: nat)
    requires
        m < 60,
        s < 60,
    ensures
        hms_text(h * 3600 + m * 60 + s) == filled(decimal(h), 4, ' ') + "h "@ + filled(
            decimal(m),
            2,
            '0',
        ) + "m "@ + filled(decimal(s), 2, '0') + "s"@,
{
    let n = h * 3600 + m * 60 + s;
    assert(n / 3600 == h);
    assert(n % 3600 == m * 60 + s);
    assert(n % 3600 / 60 == m);
    assert(n % 60 == s);
}

/// Cells in a line, with a comma between any two.
pub open spec fn in_a_line(cells: Seq<Seq<char>>) -> Seq<char>
    decreases cells.len(),
{
    if cells.len() == 0 {
        seq![]
    } else if cells.len() == 1 {
        cells[0]
    } else {
        in_a_line(cells.drop_last()) + seq![','] + cells.last()
    }
}

proof fn lemma_more_cells(cells: Seq<Seq<char>>, c: Seq<char>)
    requires
        cells.len() > 0,
    ensures
        in_a_line(cells.push(c)) == in_a_line(cells) + seq![','] + c,
{
    assert(cells.push(c).drop_last() =~= cells);
}

proof fn lemma_six_cells(
    a: Seq<char>,
    b: Seq<char>,
    c: Seq<char>,
    d: Seq<char>,
    e: Seq<char>,
    f: Seq<char>,
)
    ensures
        in_a_line(seq![a, b, c, d, e, f]) == a + seq![','] + b + seq![','] + c + seq![','] + d
            + seq![','] + e + seq![','] + f,
{
    lemma_more_cells(seq![a], b);
    lemma_more_cells(seq![a, b], c);
    lemma_more_cells(seq![a, b, c], d);
    lemma_more_cells(seq![a, b, c, d], e);
    lemma_more_cells(seq![a, b, c, d, e], f);
    assert(seq![a].push(b) =~= seq![a, b]);
    assert(seq![a, b].push(c) =~= seq![a, b, c]);
    assert(seq![a, b, c].push(d) =~= seq![a, b, c, d]);
    assert(seq![a, b, c, d].push(e) =~= seq![a, b, c, d, e]);
    assert(seq![a, b, c, d, e].push(f) =~= seq![a, b, c, d, e, f]);
}

fn put_hms(out: &mut String, secs: u128)
    ensures
        final(out)@ == old(out)@ + hms_text(secs as nat),
{
    let mut s = String::new();
    push_filled(&mut s, secs / 3600, 4, ' ');
    s.append("h ");
    push_filled(&mut s, secs % 3600 / 60, 2, '0');
    s.append("m ");
    push_filled(&mut s, secs % 60, 2, '0');
    s.append("s");
    assert(s@ =~= hms_text(secs as nat));
    out.append(s.as_str());
}

/// Seconds as hours, minutes and seconds.
pub fn fmt_hms(sec: u64) -> (r: String)
    ensures
        r@ == hms_text(sec as nat),
{
    let mut s = String::new();
    put_hms(&mut s, sec as u128);
    assert(s@ =~= hms_text(sec as nat));
    s
}

/// All tokens, in decimal notation.
pub open spec fn token_text(t: TokensV) -> Seq<char> {
    decimal(t.total() as nat)
}

fn put_tokens(out: &mut String, t: &Tokens)
    ensures
        final(out)@ == old(out)@ + token_text(t@),
{
    push_decimal(
        out,
        t.input as u128 + t.output as u128 + t.cache_create_5m as u128 + t.cache_create_1h as u128
            + t.cache_read as u128,
    );
}

/// A number and a comma at the end of a text.
pub open spec fn with_cell(out: Seq<char>, n: int) -> Seq<char> {
    out + decimal(n as nat) + ","@
}

fn put_cell(out: &mut String, n: u64)
    ensures
        final(out)@ == with_cell(old(out)@, n as int),
{
    push_decimal(out, n as u128);
    out.append(",");
}

/// The text with the line of a day.
pub open spec fn with_day(out: Seq<char>, d: DailyStat, cost: Seq<char>) -> Seq<char> {
    let out = out + d.date@ + ","@;
    let out = with_cell(out, d.active_sec as int);
    let out = with_cell(out, d.messages as int);
    let out = with_cell(out, d.sessions as int);
    out + cost + ","@ + token_text(d.tokens@) + "\n"@
}

/// The table of the first `n` days.
pub open spec fn daily_table(rows: Seq<DailyStat>, costs: Seq<Seq<char>>, n: int) -> Seq<char>
    decreases n,
{
    if n <= 0 {
        "date,active_sec,messages,sessions,cost_usd,tokens_total\n"@
    } else {
        with_day(daily_table(rows, costs, n - 1), rows[n - 1], costs[n - 1])
    }
}

/// The table of the days, with the cost of each as a text.
pub fn daily_csv(rows: &Vec<DailyStat>, costs: &Vec<String>) -> (r: String)
    requires
        costs@.len() == rows@.len(),
    ensures
        r@ == daily_table(rows@, texts(costs@), rows@.len() as int),
{
    let mut out = "date,active_sec,messages,sessions,cost_usd,tokens_total\n".to_owned();
    for i in 0..rows.len()
        invariant
            costs@.len() == rows@.len(),
            out@ == daily_table(rows@, texts(costs@), i as int),
    {
        let d = &rows[i];
        out.append(d.date.as_str());
        out.append(",");
        put_cell(&mut out, d.active_sec);
        put_cell(&mut out, d.messages);
        put_cell(&mut out, d.sessions);
        out.append(costs[i].as_str());
        out.append(",");
        put_tokens(&mut out, &d.tokens);
        out.append("\n");
    }
    out
}

/// The text with the line of a project, whose name is given in quotes.
pub open spec fn with_project(
    out: Seq<char>,
    name: Seq<char>,
    p: ProjectStat,
    cost: Seq<char>,
) -> Seq<char> {
    let out = out + name + ","@;
    let out = with_cell(out, p.active_sec as int);
    let out = with_cell(out, p.total_sec as int);
    let out = with_cell(out, p.sessions as int);
    let out = with_cell(out, p.messages as int);
    out + cost + ","@ + token_text(p.tokens@) + "\n"@
}

/// The table of the first `n` projects.
pub open spec fn project_table(rows: Seq<ProjectStat>, costs: Seq<Seq<char>>, n: int) -> Seq<char>
    decreases n,
{
    if n <= 0 {
        "project,active_sec,total_sec,sessions,messages,cost_usd,tokens_total\n"@
    } else {
        let p = rows[n - 1];
        with_project(project_table(rows, costs, n - 1), quoted(p.name@), p, costs[n - 1])
    }
}

/// Appends the line of a project, whose name is given in quotes.
pub fn put_project(out: &mut String, name: &str, p: &ProjectStat, cost: &str)
    ensures
        final(out)@ == with_project(old(out)@, name@, *p, cost@),
{
    out.append(name);
    out.append(",");
    put_cell(out, p.active_sec);
    put_cell(out, p.total_sec);
    put_cell(out, p.sessions);
    put_cell(out, p.messages);
    out.append(cost);
    out.append(",");
    put_tokens(out, &p.tokens);
    out.append("\n");
}

/// The table of the projects, with the cost of each as a text.
pub fn projects_csv(rows: &Vec<ProjectStat>, costs: &Vec<String>) -> (r: String)
    requires
        costs@.len() == rows@.len(),
    ensures
        r@ == project_table(rows@, texts(costs@), rows@.len() as int),
{
    let head = "project,active_sec,total_sec,sessions,messages,cost_usd,tokens_total\n";
    let mut out = head.to_owned();
    for i in 0..rows.len()
        invariant
            costs@.len() == rows@.len(),
            out@ == project_table(rows@, texts(costs@), i as int),
    {
        let name = quote(rows[i].name.as_str());
        put_project(&mut out, name.as_str(), &rows[i], costs[i].as_str());
    }
    out
}

/// The text with the line of a session, whose project's name is given in
/// quotes.
pub open spec fn with_session(
    out: Seq<char>,
    project: Seq<char>,
    s: SessionStat,
    cost: Seq<char>,
) -> Seq<char> {
    let out = out + project + ","@ + s.session_id@ + ","@ + s.start@ + ","@ + s.end@ + ","@;
    let out = with_cell(out, s.active_sec as int);
    let out = with_cell(out, s.total_sec as int);
    let out = with_cell(out, s.messages as int);
    out + cost + ","@ + token_text(s.tokens@) + "\n"@
}

/// The table of the first `n` sessions.
pub open spec fn session_table(rows: Seq<SessionStat>, costs: Seq<Seq<char>>, n: int) -> Seq<char>
    decreases n,
{
    if n <= 0 {
        "project,session_id,start,end,active_sec,total_sec,messages,cost_usd,tokens_total\n"@
    } else {
        let s = rows[n - 1];
        with_session(session_table(rows, costs, n - 1), quoted(s.project@), s, costs[n - 1])
    }
}

/// Appends the line of a session, whose project's name is given in quotes.
pub fn put_session(out: &mut String, project: &str, s: &SessionStat, cost: &str)
    ensures
        final(out)@ == with_session(old(out)@, project@, *s, cost@),
{
    out.append(project);
    out.append(",");
    out.append(s.session_id.as_str());
    out.append(",");
    out.append(s.start.as_str());
    out.append(",");
    out.append(s.end.as_str());
    out.append(",");
    put_cell(out, s.active_sec);
    put_cell(out, s.total_sec);
    put_cell(out, s.messages);
    out.append(cost);
    out.append(",");
    put_tokens(out, &s.tokens);
    out.append("\n");
}

/// The table of the sessions, with the cost of each as a text.
pub fn sessions_csv(rows: &Vec<SessionStat>, costs: &Vec<String>) -> (r: String)
    requires
        costs@.len() == rows@.len(),
    ensures
        r@ == session_table(rows@, texts(costs@), rows@.len() as int),
{
    let head = "project,session_id,start,end,active_sec,total_sec,messages,cost_usd,tokens_total\n";
    let mut out = head.to_owned();
    for i in 0..rows.len()
        invariant
            costs@.len() == rows@.len(),
            out@ == session_table(rows@, texts(costs@), i as int),
    {
        let project = quote(rows[i].project.as_str());
        put_session(&mut out, project.as_str(), &rows[i], costs[i].as_str());
    }
    out
}

proof fn lemma_comma()
    ensures
        ","@ == seq![','],
        "\n"@ == seq!['\n'],
{
    reveal_strlit(",");
    reveal_strlit("\n");
    assert(","@ =~= seq![',']);
    assert("\n"@ =~= seq!['\n']);
}

/// The table of the days has a line of headings, and after it a line for each
/// day with the date, the activity, the messages, the sessions, the cost and
/// the total of the tokens under them.
pub proof fn law_days_stand_under_their_headings(
    rows: Seq<DailyStat>,
    costs: Seq<Seq<char>>,
    n: int,
)
    requires
        0 <= n < rows.len(),
    ensures
        daily_table(rows, costs, 0) == in_a_line(
            seq![
                "date"@,
                "active_sec"@,
                "messages"@,
                "sessions"@,
                "cost_usd"@,
                "tokens_total"@,
            ],
        ) + seq!['\n'],
        daily_table(rows, costs, n + 1) == daily_table(rows, costs, n) + (in_a_line(
            seq![
                rows[n].date@,
                decimal(rows[n].active_sec as nat),
                decimal(rows[n].messages as nat),
                decimal(rows[n].sessions as nat),
                costs[n],
                decimal(rows[n].tokens@.total() as nat),
            ],
        ) + seq!['\n']),
{
    lemma_comma();
    let d = rows[n];
    lemma_six_cells(
        d.date@,
        decimal(d.active_sec as nat),
        decimal(d.messages as nat),
        decimal(d.sessions as nat),
        costs[n],
        decimal(d.tokens@.total() as nat),
    );
    assert(daily_table(rows, costs, n + 1) =~= daily_table(rows, costs, n) + (in_a_line(
        seq![
            d.date@,
            decimal(d.active_sec as nat),
            decimal(d.messages as nat),
            decimal(d.sessions as nat),
            costs[n],
            decimal(d.tokens@.total() as nat),
        ],
    ) + seq!['\n']));
    lemma_six_cells(
        "date"@,
        "active_sec"@,
        "messages"@,
        "sessions"@,
        "cost_usd"@,
        "tokens_total"@,
    );
    reveal_strlit("date,active_sec,messages,sessions,cost_usd,tokens_total\n");
    reveal_strlit("date");
    reveal_strlit("active_sec");
    reveal_strlit("messages");
    reveal_strlit("sessions");
    reveal_strlit("cost_usd");
    reveal_strlit("tokens_total");
    assert(daily_table(rows, costs, 0) =~= in_a_line(
        seq!["date"@, "active_sec"@, "messages"@, "sessions"@, "cost_usd"@, "tokens_total"@],
    ) + seq!['\n']);
}

/// The table of the projects has a line of headings, and after it a line for
/// each project with its name in quotes, the activity, the length of the
/// sessions, their number, the messages, the cost and the total of the tokens
/// under them.
pub proof fn law_projects_stand_under_their_headings(
    rows: Seq<ProjectStat>,
    costs: Seq<Seq<char>>,
    n: int,
)
    requires
        0 <= n < rows.len(),
    ensures
        project_table(rows, costs, 0) == in_a_line(
            seq![
                "project"@,
                "active_sec"@,
                "total_sec"@,
                "sessions"@,
                "messages"@,
                "cost_usd"@,
            ],
        ) + seq![','] + "tokens_total"@ + seq!['\n'],
        project_table(rows, costs, n + 1) == project_table(rows, costs, n) + (in_a_line(
            seq![
                quoted(rows[n].name@),
                decimal(rows[n].active_sec as nat),
                decimal(rows[n].total_sec as nat),
                decimal(rows[n].sessions as nat),
                decimal(rows[n].messages as nat),
                costs[n],
            ],
        ) + seq![','] + decimal(rows[n].tokens@.total() as nat) + seq!['\n']),
{
    lemma_comma();
    let p = rows[n];
    lemma_six_cells(
        quoted(p.name@),
        decimal(p.active_sec as nat),
        decimal(p.total_sec as nat),
        decimal(p.sessions as nat),
        decimal(p.messages as nat),
        costs[n],
    );
    assert(project_table(rows, costs, n + 1) =~= project_table(rows, costs, n) + (in_a_line(
        seq![
            quoted(p.name@),
            decimal(p.active_sec as nat),
            decimal(p.total_sec as nat),
            decimal(p.sessions as nat),
            decimal(p.messages as nat),
            costs[n],
        ],
    ) + seq![','] + decimal(p.tokens@.total() as nat) + seq!['\n']));
    lemma_six_cells(
        "project"@,
        "active_sec"@,
        "total_sec"@,
        "sessions"@,
        "messages"@,
        "cost_usd"@,
    );
    reveal_strlit("project,active_sec,total_sec,sessions,messages,cost_usd,tokens_total\n");
    reveal_strlit("project");
    reveal_strlit("active_sec");
    reveal_strlit("total_sec");
    reveal_strlit("messages");
    reveal_strlit("sessions");
    reveal_strlit("cost_usd");
    reveal_strlit("tokens_total");
    assert(project_table(rows, costs, 0) =~= in_a_line(
        seq!["project"@, "active_sec"@, "total_sec"@, "sessions"@, "messages"@, "cost_usd"@],
    ) + seq![','] + "tokens_total"@ + seq!['\n']);
}

/// The table of the sessions has a line of headings, and after it a line for
/// each session with its project in quotes, its id, start and end, the
/// activity, the length, the messages, the cost and the total of the tokens
/// under them.
pub proof fn law_sessions_stand_under_their_headings(
    rows: Seq<SessionStat>,
    costs: Seq<Seq<char>>,
    n: int,
)
    requires
        0 <= n < rows.len(),
    ensures
        session_table(rows, costs, 0) == in_a_line(
            seq!["project"@, "session_id"@, "start"@, "end"@, "active_sec"@, "total_sec"@],
        ) + seq![','] + "messages"@ + seq![','] + "cost_usd"@ + seq![','] + "tokens_total"@
            + seq!['\n'],
        session_table(rows, costs, n + 1) == session_table(rows, costs, n) + (in_a_line(
            seq![
                quoted(rows[n].project@),
                rows[n].session_id@,
                rows[n].start@,
                rows[n].end@,
                decimal(rows[n].active_sec as nat),
                decimal(rows[n].total_sec as nat),
            ],
        ) + seq![','] + decimal(rows[n].messages as nat) + seq![','] + costs[n] + seq![',']
            + decimal(rows[n].tokens@.total() as nat) + seq!['\n']),
{
    lemma_comma();
    let s = rows[n];
    lemma_six_cells(
        quoted(s.project@),
        s.session_id@,
        s.start@,
        s.end@,
        decimal(s.active_sec as nat),
        decimal(s.total_sec as nat),
    );
    assert(session_table(rows, costs, n + 1) =~= session_table(rows, costs, n) + (in_a_line(
        seq![
            quoted(s.project@),
            s.session_id@,
            s.start@,
            s.end@,
            decimal(s.active_sec as nat),
            decimal(s.total_sec as nat),
        ],
    ) + seq![','] + decimal(s.messages as nat) + seq![','] + costs[n] + seq![','] + decimal(
        s.tokens@.total() as nat,
    ) + seq!['\n']));
    lemma_six_cells(
        "project"@,
        "session_id"@,
        "start"@,
        "end"@,
        "active_sec"@,
        "total_sec"@,
    );
    reveal_strlit(
        "project,session_id,start,end,active_sec,total_sec,messages,cost_usd,tokens_total\n",
    );
    reveal_strlit("project");
    reveal_strlit("session_id");
    reveal_strlit("start");
    reveal_strlit("end");
    reveal_strlit("active_sec");
    reveal_strlit("total_sec");
    reveal_strlit("messages");
    reveal_strlit("cost_usd");
    reveal_strlit("tokens_total");
    assert(session_table(rows, costs, 0) =~= in_a_line(
        seq!["project"@, "session_id"@, "start"@, "end"@, "active_sec"@, "total_sec"@],
    ) + seq![','] + "messages"@ + seq![','] + "cost_usd"@ + seq![','] + "tokens_total"@
        + seq!['\n']);
}

/// The numbers with a fraction that the summary shows, as texts.
pub struct Figures {
    pub span_days: String,
    pub active_hours: String,
    pub union_hours: String,
    pub total_hours: String,
    pub active_percent: String,
    pub active_per_day: String,
    pub calls_per_message: String,
    pub cache_percent: String,
    pub cost: String,
    /// Of the projects that the summary shows.
    pub project_costs: Vec<String>,
    pub model_costs: Vec<String>,
}

/// A date, or a hyphen where there is none.
pub open spec fn or_dash(date: Option<String>) -> Seq<char> {
    match date {
        Some(d) => d@,
        None => "-"@,
    }
}

/// A date is told as it is, and a missing one by a hyphen.
pub proof fn law_a_missing_date_is_a_hyphen(date: String)
    ensures
        or_dash(Some(date)) == date@,
        or_dash(None) == "-"@,
{
}

fn put_or_dash(out: &mut String, date: &Option<String>)
    ensures
        final(out)@ == old(out)@ + or_dash(*date),
{
    match date {
        Some(d) => out.append(d.as_str()),
        None => out.append("-"),
    }
}

/// The first lines of the summary, with its title, down to the counts.
pub open spec fn summary_head(title: Seq<char>, s: Summary, f: Figures) -> Seq<char> {
    let out = "\n"@
        + "==============================================================================\n"@
        + title + "   gap="@ + decimal(s.gap_threshold_min as nat) + "m   generated "@
        + s.generated_at@ + "\n"@
        + "==============================================================================\n"@;
    let out = out + "Range     : "@ + or_dash(s.earliest) + "  →  "@ + or_dash(s.latest) + "   ("@
        + f.span_days@ + " days)\n"@;
    out + "Projects/Sessions/Messages : "@ + decimal(s.projects as nat) + " / "@ + decimal(
        s.sessions as nat,
    ) + " / "@ + decimal(s.messages as nat) + "\n"@
}

/// The text with the lines on time.
pub open spec fn with_times(out: Seq<char>, s: Summary, f: Figures) -> Seq<char> {
    let out = out + "Active sum : "@ + hms_text(s.active_sec as nat) + "   ("@ + f.active_hours@
        + " h)   per-session sum; parallel sessions double-counted\n"@;
    let out = out + "Active union: "@ + hms_text(s.active_sec_union as nat) + "   ("@
        + f.union_hours@ + " h)   wall-clock union; real attention time\n"@;
    let out = out + "Total      : "@ + hms_text(s.total_sec as nat) + "   ("@ + f.total_hours@
        + " h)\n"@;
    let out = out + "Active/Total: "@ + f.active_percent@ + "%\n"@;
    out + "Avg active/day: "@ + f.active_per_day@ + " h\n"@ + "\n"@
}

/// The text with the lines on tokens and cost.
pub open spec fn with_tokens(out: Seq<char>, s: Summary, f: Figures) -> Seq<char> {
    let t = s.tokens;
    let out = out + "Tokens     : in="@ + decimal(t.input as nat) + "  out="@ + decimal(
        t.output as nat,
    ) + "  cache_write="@ + decimal(t.cache_create_5m as nat) + "+"@ + decimal(
        t.cache_create_1h as nat,
    ) + "  cache_read="@ + decimal(t.cache_read as nat) + "   total="@ + token_text(t@) + "\n"@;
    let out = out + "Iterations : "@ + decimal(t.iterations as nat) + " model calls   (avg "@
        + f.calls_per_message@ + " per assistant turn)\n"@;
    let out = out + "TZ         : "@ + s.tz_offset@ + "\n"@;
    let out = out + "Cache hit  : "@ + f.cache_percent@
        + "%   (cache_read / [input + cache_write + cache_read])\n"@;
    out + "Cost (est.): $"@ + f.cost@ + " USD\n"@ + "\n"@
}

/// The text with the lines of the first `n` projects.
pub open spec fn with_projects(
    out: Seq<char>,
    rows: Seq<ProjectStat>,
    costs: Seq<Seq<char>>,
    n: int,
) -> Seq<char>
    decreases n,
{
    if n <= 0 {
        out + "Top projects by active time:\n"@
    } else {
        let p = rows[n - 1];
        with_projects(out, rows, costs, n - 1) + "  "@ + filled(decimal(n as nat), 2, ' ') + ". "@
            + hms_text(p.active_sec as nat) + "  "@ + p.name@ + "  msgs="@ + decimal(
            p.messages as nat,
        ) + "  $"@ + costs[n - 1] + "\n"@
    }
}

/// The text with the lines of the first `n` models.
pub open spec fn with_models(
    out: Seq<char>,
    rows: Seq<ModelStat>,
    costs: Seq<Seq<char>>,
    n: int,
) -> Seq<char>
    decreases n,
{
    if n <= 0 {
        out + "\nBy model:\n"@
    } else {
        let m = rows[n - 1];
        with_models(out, rows, costs, n - 1) + "  "@ + filled_right(m.name@, 24, ' ')
            + "  msgs="@ + filled(decimal(m.messages as nat), 6, ' ') + "  $"@ + costs[n - 1]
            + "\n"@
    }
}

/// The text with the lines of the first `n` skills.
pub open spec fn with_skills(out: Seq<char>, rows: Seq<NamedStat>, n: int) -> Seq<char>
    decreases n,
{
    if n <= 0 {
        out + "\nTop skills:\n"@
    } else {
        let k = rows[n - 1];
        with_skills(out, rows, n - 1) + "  "@ + filled_right(k.name@, 40, ' ') + "  msgs="@
            + decimal(k.messages as nat) + "\n"@
    }
}

/// How many rows are shown where no more than ten are.
pub open spec fn shown(n: nat) -> nat {
    if n < 10 {
        n
    } else {
        10
    }
}

/// The summary: what was counted, the ten projects with the most activity, the
/// models, and the ten skills with the most messages.
pub open spec fn summary_text(title: Seq<char>, r: Report, f: Figures) -> Seq<char> {
    let out = with_times(summary_head(title, r.summary, f), r.summary, f);
    let out = with_tokens(out, r.summary, f);
    let out = with_projects(
        out,
        r.projects@,
        texts(f.project_costs@),
        shown(r.projects@.len()) as int,
    );
    let out = if r.by_model@.len() > 0 {
        with_models(out, r.by_model@, texts(f.model_costs@), r.by_model@.len() as int)
    } else {
        out
    };
    if r.by_skill@.len() > 0 {
        with_skills(out, r.by_skill@, shown(r.by_skill@.len()) as int)
    } else {
        out
    }
}

fn put_head(title: &str, s: &Summary, f: &Figures) -> (out: String)
    ensures
        out@ == summary_head(title@, *s, *f),
{
    let mut out = "\n".to_owned();
    out.append("==============================================================================\n");
    out.append(title);
    out.append("   gap=");
    push_decimal(&mut out, s.gap_threshold_min as u128);
    out.append("m   generated ");
    out.append(s.generated_at.as_str());
    out.append("\n");
    out.append("==============================================================================\n");
    out.append("Range     : ");
    put_or_dash(&mut out, &s.earliest);
    out.append("  →  ");
    put_or_dash(&mut out, &s.latest);
    out.append("   (");
    out.append(f.span_days.as_str());
    out.append(" days)\n");
    out.append("Projects/Sessions/Messages : ");
    push_decimal(&mut out, s.projects as u128);
    out.append(" / ");
    push_decimal(&mut out, s.sessions as u128);
    out.append(" / ");
    push_decimal(&mut out, s.messages as u128);
    out.append("\n");
    out
}

fn put_times(out: &mut String, s: &Summary, f: &Figures)
    ensures
        final(out)@ == with_times(old(out)@, *s, *f),
{
    out.append("Active sum : ");
    put_hms(out, s.active_sec as u128);
    out.append("   (");
    out.append(f.active_hours.as_str());
    out.append(" h)   per-session sum; parallel sessions double-counted\n");
    out.append("Active union: ");
    put_hms(out, s.active_sec_union);
    out.append("   (");
    out.append(f.union_hours.as_str());
    out.append(" h)   wall-clock union; real attention time\n");
    out.append("Total      : ");
    put_hms(out, s.total_sec as u128);
    out.append("   (");
    out.append(f.total_hours.as_str());
    out.append(" h)\n");
    out.append("Active/Total: ");
    out.append(f.active_percent.as_str());
    out.append("%\n");
    out.append("Avg active/day: ");
    out.append(f.active_per_day.as_str());
    out.append(" h\n");
    out.append("\n");
}

fn put_token_lines(out: &mut String, s: &Summary, f: &Figures)
    ensures
        final(out)@ == with_tokens(old(out)@, *s, *f),
{
    let t = &s.tokens;
    out.append("Tokens     : in=");
    push_decimal(out, t.input as u128);
    out.append("  out=");
    push_decimal(out, t.output as u128);
    out.append("  cache_write=");
    push_decimal(out, t.cache_create_5m as u128);
    out.append("+");
    push_decimal(out, t.cache_create_1h as u128);
    out.append("  cache_read=");
    push_decimal(out, t.cache_read as u128);
    out.append("   total=");
    put_tokens(out, t);
    out.append("\n");
    out.append("Iterations : ");
    push_decimal(out, t.iterations as u128);
    out.append(" model calls   (avg ");
    out.append(f.calls_per_message.as_str());
    out.append(" per assistant turn)\n");
    out.append("TZ         : ");
    out.append(s.tz_offset.as_str());
    out.append("\n");
    out.append("Cache hit  : ");
    out.append(f.cache_percent.as_str());
    out.append("%   (cache_read / [input + cache_write + cache_read])\n");
    out.append("Cost (est.): $");
    out.append(f.cost.as_str());
    out.append(" USD\n");
    out.append("\n");
}

/// How many rows are shown where no more than ten are.
pub fn shown_rows(n: usize) -> (r: usize)
    ensures
        r == shown(n as nat),
{
    if n < 10 {
        n
    } else {
        10
    }
}

fn put_projects(out: &mut String, rows: &Vec<ProjectStat>, costs: &Vec<String>)
    requires
        costs@.len() == shown(rows@.len()),
    ensures
        final(out)@ == with_projects(
            old(out)@,
            rows@,
            texts(costs@),
            shown(rows@.len()) as int,
        ),
{
    let ghost before = out@;
    let n: usize = shown_rows(rows.len());
    out.append("Top projects by active time:\n");
    for i in 0..n
        invariant
            n == shown(rows@.len()),
            costs@.len() == n,
            out@ == with_projects(before, rows@, texts(costs@), i as int),
    {
        let p = &rows[i];
        out.append("  ");
        push_filled(out, i as u128 + 1, 2, ' ');
        out.append(". ");
        put_hms(out, p.active_sec as u128);
        out.append("  ");
        out.append(p.name.as_str());
        out.append("  msgs=");
        push_decimal(out, p.messages as u128);
        out.append("  $");
        out.append(costs[i].as_str());
        out.append("\n");
    }
}

fn put_models(out: &mut String, rows: &Vec<ModelStat>, costs: &Vec<String>)
    requires
        costs@.len() == rows@.len(),
    ensures
        final(out)@ == with_models(old(out)@, rows@, texts(costs@), rows@.len() as int),
{
    let ghost before = out@;
    out.append("\nBy model:\n");
    for i in 0..rows.len()
        invariant
            costs@.len() == rows@.len(),
            out@ == with_models(before, rows@, texts(costs@), i as int),
    {
        let m = &rows[i];
        out.append("  ");
        push_padded_right(out, m.name.as_str(), 24, ' ');
        out.append("  msgs=");
        push_filled(out, m.messages as u128, 6, ' ');
        out.append("  $");
        out.append(costs[i].as_str());
        out.append("\n");
    }
}

fn put_skills(out: &mut String, rows: &Vec<NamedStat>)
    ensures
        final(out)@ == with_skills(old(out)@, rows@, shown(rows@.len()) as int),
{
    let ghost before = out@;
    let n: usize = shown_rows(rows.len());
    out.append("\nTop skills:\n");
    for i in 0..n
        invariant
            n == shown(rows@.len()),
            out@ == with_skills(before, rows@, i as int),
    {
        let k = &rows[i];
        out.append("  ");
        push_padded_right(out, k.name.as_str(), 40, ' ');
        out.append("  msgs=");
        push_decimal(out, k.messages as u128);
        out.append("\n");
    }
}

/// The summary of a report under a title, with the numbers that have a fraction
/// as texts.
pub fn print_summary(title: &str, r: &Report, f: &Figures) -> (out: String)
    requires
        f.project_costs@.len() == shown(r.projects@.len()),
        f.model_costs@.len() == r.by_model@.len(),
    ensures
        out@ == summary_text(title@, *r, *f),
{
    let mut out = put_head(title, &r.summary, f);
    put_times(&mut out, &r.summary, f);
    put_token_lines(&mut out, &r.summary, f);
    put_projects(&mut out, &r.projects, &f.project_costs);
    if r.by_model.len() > 0 {
        put_models(&mut out, &r.by_model, &f.model_costs);
    }
    if r.by_skill.len() > 0 {
        put_skills(&mut out, &r.by_skill);
    }
    out
}

/// All rows are shown up to ten, and ten of more.
pub proof fn law_no_more_than_ten_are_shown(n: nat)
    ensures
        shown(n) <= n,
        shown(n) <= 10,
        shown(n) == n || shown(n) == 10,
{
}

proof fn lemma_regrouped(a: Seq<char>, b: Seq<char>, c: Seq<char>)
    ensures
        a + b + c == a + (b + c),
{
    assert(a + b + c =~= a + (b + c));
}

/// What follows the start of a text is shown in it, and the start is one.
proof fn lemma_shows(out: Seq<char>, part: Seq<char>, whole: Seq<char>)
    requires
        (out + part).is_prefix_of(whole),
    ensures
        occurs(whole, part),
        out.is_prefix_of(whole),
{
    let n = (out + part).len() as int;
    let rest = whole.skip(n);
    assert(whole =~= out + part + rest) by {
        assert forall|i: int| 0 <= i < n implies whole[i] == (out + part)[i] by {
            assert(whole.subrange(0, n)[i] == (out + part)[i]);
        }
    }
    law_a_part_occurs(out, part, rest);
    assert(out =~= whole.subrange(0, out.len() as int));
}

proof fn lemma_head_shows(title: Seq<char>, s: Summary, f: Figures, whole: Seq<char>)
    requires
        summary_head(title, s, f).is_prefix_of(whole),
    ensures
        occurs(
            whole,
            title + "   gap="@ + decimal(s.gap_threshold_min as nat) + "m   generated "@
                + s.generated_at@ + "\n"@,
        ),
        occurs(
            whole,
            "Range     : "@ + or_dash(s.earliest) + "  →  "@ + or_dash(s.latest) + "   ("@
                + f.span_days@ + " days)\n"@,
        ),
        occurs(
            whole,
            "Projects/Sessions/Messages : "@ + decimal(s.projects as nat) + " / "@
                + decimal(s.sessions as nat) + " / "@ + decimal(s.messages as nat) + "\n"@,
        ),
{
    let out0 = "\n"@
        + "==============================================================================\n"@;
    let out1 = out0 + title + "   gap="@ + decimal(s.gap_threshold_min as nat) + "m   generated "@
        + s.generated_at@ + "\n"@
        + "==============================================================================\n"@;
    let out2 = out1 + "Range     : "@ + or_dash(s.earliest) + "  →  "@ + or_dash(s.latest)
        + "   ("@ + f.span_days@ + " days)\n"@;
    let out3 = out2 + "Projects/Sessions/Messages : "@ + decimal(s.projects as nat) + " / "@
        + decimal(s.sessions as nat) + " / "@ + decimal(s.messages as nat) + "\n"@;
    let part = "Projects/Sessions/Messages : "@;
    lemma_regrouped(out2, part, decimal(s.projects as nat));
    let part = part + decimal(s.projects as nat);
    lemma_regrouped(out2, part, " / "@);
    let part = part + " / "@;
    lemma_regrouped(out2, part, decimal(s.sessions as nat));
    let part = part + decimal(s.sessions as nat);
    lemma_regrouped(out2, part, " / "@);
    let part = part + " / "@;
    lemma_regrouped(out2, part, decimal(s.messages as nat));
    let part = part + decimal(s.messages as nat);
    lemma_regrouped(out2, part, "\n"@);
    let part = part + "\n"@;
    lemma_shows(out2, part, whole);
    let part = "Range     : "@;
    lemma_regrouped(out1, part, or_dash(s.earliest));
    let part = part + or_dash(s.earliest);
    lemma_regrouped(out1, part, "  →  "@);
    let part = part + "  →  "@;
    lemma_regrouped(out1, part, or_dash(s.latest));
    let part = part + or_dash(s.latest);
    lemma_regrouped(out1, part, "   ("@);
    let part = part + "   ("@;
    lemma_regrouped(out1, part, f.span_days@);
    let part = part + f.span_days@;
    lemma_regrouped(out1, part, " days)\n"@);
    let part = part + " days)\n"@;
    lemma_shows(out1, part, whole);
    lemma_shows(
        out0 + title + "   gap="@ + decimal(s.gap_threshold_min as nat) + "m   generated "@
            + s.generated_at@ + "\n"@,
        "==============================================================================\n"@,
        whole,
    );
    let part = title;
    lemma_regrouped(out0, part, "   gap="@);
    let part = part + "   gap="@;
    lemma_regrouped(out0, part, decimal(s.gap_threshold_min as nat));
    let part = part + decimal(s.gap_threshold_min as nat);
    lemma_regrouped(out0, part, "m   generated "@);
    let part = part + "m   generated "@;
    lemma_regrouped(out0, part, s.generated_at@);
    let part = part + s.generated_at@;
    lemma_regrouped(out0, part, "\n"@);
    let part = part + "\n"@;
    lemma_shows(out0, part, whole);
}

proof fn lemma_times_show(out: Seq<char>, s: Summary, f: Figures, whole: Seq<char>)
    requires
        with_times(out, s, f).is_prefix_of(whole),
    ensures
        occurs(
            whole,
            "Active sum : "@ + hms_text(s.active_sec as nat) + "   ("@ + f.active_hours@
                + " h)   per-session sum; parallel sessions double-counted\n"@,
        ),
        occurs(
            whole,
            "Active union: "@ + hms_text(s.active_sec_union as nat) + "   ("@ + f.union_hours@
                + " h)   wall-clock union; real attention time\n"@,
        ),
        occurs(
            whole,
            "Total      : "@ + hms_text(s.total_sec as nat) + "   ("@ + f.total_hours@ + " h)\n"@,
        ),
        occurs(whole, "Active/Total: "@ + f.active_percent@ + "%\n"@),
        occurs(whole, "Avg active/day: "@ + f.active_per_day@ + " h\n"@),
        out.is_prefix_of(whole),
{
    let out1 = out + "Active sum : "@ + hms_text(s.active_sec as nat) + "   ("@ + f.active_hours@
        + " h)   per-session sum; parallel sessions double-counted\n"@;
    let out2 = out1 + "Active union: "@ + hms_text(s.active_sec_union as nat) + "   ("@
        + f.union_hours@ + " h)   wall-clock union; real attention time\n"@;
    let out3 = out2 + "Total      : "@ + hms_text(s.total_sec as nat) + "   ("@ + f.total_hours@
        + " h)\n"@;
    let out4 = out3 + "Active/Total: "@ + f.active_percent@ + "%\n"@;
    let out5 = out4 + "Avg active/day: "@ + f.active_per_day@ + " h\n"@;
    lemma_shows(out5, "\n"@, whole);
    let part = "Avg active/day: "@;
    lemma_regrouped(out4, part, f.active_per_day@);
    let part = part + f.active_per_day@;
    lemma_regrouped(out4, part, " h\n"@);
    let part = part + " h\n"@;
    lemma_shows(out4, part, whole);
    let part = "Active/Total: "@;
    lemma_regrouped(out3, part, f.active_percent@);
    let part = part + f.active_percent@;
    lemma_regrouped(out3, part, "%\n"@);
    let part = part + "%\n"@;
    lemma_shows(out3, part, whole);
    let part = "Total      : "@;
    lemma_regrouped(out2, part, hms_text(s.total_sec as nat));
    let part = part + hms_text(s.total_sec as nat);
    lemma_regrouped(out2, part, "   ("@);
    let part = part + "   ("@;
    lemma_regrouped(out2, part, f.total_hours@);
    let part = part + f.total_hours@;
    lemma_regrouped(out2, part, " h)\n"@);
    let part = part + " h)\n"@;
    lemma_shows(out2, part, whole);
    let part = "Active union: "@;
    lemma_regrouped(out1, part, hms_text(s.active_sec_union as nat));
    let part = part + hms_text(s.active_sec_union as nat);
    lemma_regrouped(out1, part, "   ("@);
    let part = part + "   ("@;
    lemma_regrouped(out1, part, f.union_hours@);
    let part = part + f.union_hours@;
    lemma_regrouped(out1, part, " h)   wall-clock union; real attention time\n"@);
    let part = part + " h)   wall-clock union; real attention time\n"@;
    lemma_shows(out1, part, whole);
    let part = "Active sum : "@;
    lemma_regrouped(out, part, hms_text(s.active_sec as nat));
    let part = part + hms_text(s.active_sec as nat);
    lemma_regrouped(out, part, "   ("@);
    let part = part + "   ("@;
    lemma_regrouped(out, part, f.active_hours@);
    let part = part + f.active_hours@;
    lemma_regrouped(out, part, " h)   per-session sum; parallel sessions double-counted\n"@);
    let part = part + " h)   per-session sum; parallel sessions double-counted\n"@;
    lemma_shows(out, part, whole);
}

proof fn lemma_tokens_show(out: Seq<char>, s: Summary, f: Figures, whole: Seq<char>)
    requires
        with_tokens(out, s, f).is_prefix_of(whole),
    ensures
        occurs(
            whole,
            "Tokens     : in="@ + decimal(s.tokens.input as nat) + "  out="@
                + decimal(s.tokens.output as nat) + "  cache_write="@
                + decimal(s.tokens.cache_create_5m as nat) + "+"@
                + decimal(s.tokens.cache_create_1h as nat) + "  cache_read="@
                + decimal(s.tokens.cache_read as nat) + "   total="@ + token_text(s.tokens@)
                + "\n"@,
        ),
        occurs(
            whole,
            "Iterations : "@ + decimal(s.tokens.iterations as nat) + " model calls   (avg "@
                + f.calls_per_message@ + " per assistant turn)\n"@,
        ),
        occurs(whole, "TZ         : "@ + s.tz_offset@ + "\n"@),
        occurs(
            whole,
            "Cache hit  : "@ + f.cache_percent@
                + "%   (cache_read / [input + cache_write + cache_read])\n"@,
        ),
        occurs(whole, "Cost (est.): $"@ + f.cost@ + " USD\n"@),
        out.is_prefix_of(whole),
{
    let out1 = out + "Tokens     : in="@ + decimal(s.tokens.input as nat) + "  out="@
        + decimal(s.tokens.output as nat) + "  cache_write="@
        + decimal(s.tokens.cache_create_5m as nat) + "+"@
        + decimal(s.tokens.cache_create_1h as nat) + "  cache_read="@
        + decimal(s.tokens.cache_read as nat) + "   total="@ + token_text(s.tokens@) + "\n"@;
    let out2 = out1 + "Iterations : "@ + decimal(s.tokens.iterations as nat)
        + " model calls   (avg "@ + f.calls_per_message@ + " per assistant turn)\n"@;
    let out3 = out2 + "TZ         : "@ + s.tz_offset@ + "\n"@;
    let out4 = out3 + "Cache hit  : "@ + f.cache_percent@
        + "%   (cache_read / [input + cache_write + cache_read])\n"@;
    let out5 = out4 + "Cost (est.): $"@ + f.cost@ + " USD\n"@;
    lemma_shows(out5, "\n"@, whole);
    let part = "Cost (est.): $"@;
    lemma_regrouped(out4, part, f.cost@);
    let part = part + f.cost@;
    lemma_regrouped(out4, part, " USD\n"@);
    let part = part + " USD\n"@;
    lemma_shows(out4, part, whole);
    let part = "Cache hit  : "@;
    lemma_regrouped(out3, part, f.cache_percent@);
    let part = part + f.cache_percent@;
    lemma_regrouped(out3, part, "%   (cache_read / [input + cache_write + cache_read])\n"@);
    let part = part + "%   (cache_read / [input + cache_write + cache_read])\n"@;
    lemma_shows(out3, part, whole);
    let part = "TZ         : "@;
    lemma_regrouped(out2, part, s.tz_offset@);
    let part = part + s.tz_offset@;
    lemma_regrouped(out2, part, "\n"@);
    let part = part + "\n"@;
    lemma_shows(out2, part, whole);
    let part = "Iterations : "@;
    lemma_regrouped(out1, part, decimal(s.tokens.iterations as nat));
    let part = part + decimal(s.tokens.iterations as nat);
    lemma_regrouped(out1, part, " model calls   (avg "@);
    let part = part + " model calls   (avg "@;
    lemma_regrouped(out1, part, f.calls_per_message@);
    let part = part + f.calls_per_message@;
    lemma_regrouped(out1, part, " per assistant turn)\n"@);
    let part = part + " per assistant turn)\n"@;
    lemma_shows(out1, part, whole);
    let part = "Tokens     : in="@;
    lemma_regrouped(out, part, decimal(s.tokens.input as nat));
    let part = part + decimal(s.tokens.input as nat);
    lemma_regrouped(out, part, "  out="@);
    let part = part + "  out="@;
    lemma_regrouped(out, part, decimal(s.tokens.output as nat));
    let part = part + decimal(s.tokens.output as nat);
    lemma_regrouped(out, part, "  cache_write="@);
    let part = part + "  cache_write="@;
    lemma_regrouped(out, part, decimal(s.tokens.cache_create_5m as nat));
    let part = part + decimal(s.tokens.cache_create_5m as nat);
    lemma_regrouped(out, part, "+"@);
    let part = part + "+"@;
    lemma_regrouped(out, part, decimal(s.tokens.cache_create_1h as nat));
    let part = part + decimal(s.tokens.cache_create_1h as nat);
    lemma_regrouped(out, part, "  cache_read="@);
    let part = part + "  cache_read="@;
    lemma_regrouped(out, part, decimal(s.tokens.cache_read as nat));
    let part = part + decimal(s.tokens.cache_read as nat);
    lemma_regrouped(out, part, "   total="@);
    let part = part + "   total="@;
    lemma_regrouped(out, part, token_text(s.tokens@));
    let part = part + token_text(s.tokens@);
    lemma_regrouped(out, part, "\n"@);
    let part = part + "\n"@;
    lemma_shows(out, part, whole);
}

proof fn lemma_projects_show(
    out: Seq<char>,
    rows: Seq<ProjectStat>,
    costs: Seq<Seq<char>>,
    n: int,
    i: int,
    whole: Seq<char>,
)
    requires
        0 <= n,
        with_projects(out, rows, costs, n).is_prefix_of(whole),
    ensures
        out.is_prefix_of(whole),
        0 <= i < n ==> occurs(
            whole,
            "  "@ + filled(decimal((i + 1) as nat), 2, ' ') + ". "@
                + hms_text(rows[i].active_sec as nat) + "  "@ + rows[i].name@ + "  msgs="@
                + decimal(rows[i].messages as nat) + "  $"@ + costs[i] + "\n"@,
        ),
    decreases n,
{
    if n > 0 {
        let first = with_projects(out, rows, costs, n - 1);
        let part = "  "@;
        lemma_regrouped(first, part, filled(decimal(n as nat), 2, ' '));
        let part = part + filled(decimal(n as nat), 2, ' ');
        lemma_regrouped(first, part, ". "@);
        let part = part + ". "@;
        lemma_regrouped(first, part, hms_text(rows[n - 1].active_sec as nat));
        let part = part + hms_text(rows[n - 1].active_sec as nat);
        lemma_regrouped(first, part, "  "@);
        let part = part + "  "@;
        lemma_regrouped(first, part, rows[n - 1].name@);
        let part = part + rows[n - 1].name@;
        lemma_regrouped(first, part, "  msgs="@);
        let part = part + "  msgs="@;
        lemma_regrouped(first, part, decimal(rows[n - 1].messages as nat));
        let part = part + decimal(rows[n - 1].messages as nat);
        lemma_regrouped(first, part, "  $"@);
        let part = part + "  $"@;
        lemma_regrouped(first, part, costs[n - 1]);
        let part = part + costs[n - 1];
        lemma_regrouped(first, part, "\n"@);
        let part = part + "\n"@;
        lemma_shows(first, part, whole);
        lemma_projects_show(out, rows, costs, n - 1, i, whole);
    } else {
        lemma_shows(out, "Top projects by active time:\n"@, whole);
    }
}

proof fn lemma_models_show(
    out: Seq<char>,
    rows: Seq<ModelStat>,
    costs: Seq<Seq<char>>,
    n: int,
    i: int,
    whole: Seq<char>,
)
    requires
        0 <= n,
        with_models(out, rows, costs, n).is_prefix_of(whole),
    ensures
        out.is_prefix_of(whole),
        0 <= i < n ==> occurs(
            whole,
            "  "@ + filled_right(rows[i].name@, 24, ' ') + "  msgs="@
                + filled(decimal(rows[i].messages as nat), 6, ' ') + "  $"@ + costs[i] + "\n"@,
        ),
    decreases n,
{
    if n > 0 {
        let first = with_models(out, rows, costs, n - 1);
        let part = "  "@;
        lemma_regrouped(first, part, filled_right(rows[n - 1].name@, 24, ' '));
        let part = part + filled_right(rows[n - 1].name@, 24, ' ');
        lemma_regrouped(first, part, "  msgs="@);
        let part = part + "  msgs="@;
        lemma_regrouped(first, part, filled(decimal(rows[n - 1].messages as nat), 6, ' '));
        let part = part + filled(decimal(rows[n - 1].messages as nat), 6, ' ');
        lemma_regrouped(first, part, "  $"@);
        let part = part + "  $"@;
        lemma_regrouped(first, part, costs[n - 1]);
        let part = part + costs[n - 1];
        lemma_regrouped(first, part, "\n"@);
        let part = part + "\n"@;
        lemma_shows(first, part, whole);
        lemma_models_show(out, rows, costs, n - 1, i, whole);
    } else {
        lemma_shows(out, "\nBy model:\n"@, whole);
    }
}

proof fn lemma_skills_show(out: Seq<char>, rows: Seq<NamedStat>, n: int, i: int, whole: Seq<char>)
    requires
        0 <= n,
        with_skills(out, rows, n).is_prefix_of(whole),
    ensures
        out.is_prefix_of(whole),
        0 <= i < n ==> occurs(
            whole,
            "  "@ + filled_right(rows[i].name@, 40, ' ') + "  msgs="@
                + decimal(rows[i].messages as nat) + "\n"@,
        ),
    decreases n,
{
    if n > 0 {
        let first = with_skills(out, rows, n - 1);
        let part = "  "@;
        lemma_regrouped(first, part, filled_right(rows[n - 1].name@, 40, ' '));
        let part = part + filled_right(rows[n - 1].name@, 40, ' ');
        lemma_regrouped(first, part, "  msgs="@);
        let part = part + "  msgs="@;
        lemma_regrouped(first, part, decimal(rows[n - 1].messages as nat));
        let part = part + decimal(rows[n - 1].messages as nat);
        lemma_regrouped(first, part, "\n"@);
        let part = part + "\n"@;
        lemma_shows(first, part, whole);
        lemma_skills_show(out, rows, n - 1, i, whole);
    } else {
        lemma_shows(out, "\nTop skills:\n"@, whole);
    }
}

/// Every number of the summary stands in its line: the range and the counts,
/// the time and the tokens, by their names.
pub proof fn law_the_summary_shows_its_numbers(title: Seq<char>, r: Report, f: Figures)
    ensures
        occurs(
            summary_text(title, r, f),
            title + "   gap="@ + decimal(r.summary.gap_threshold_min as nat) + "m   generated "@
                + r.summary.generated_at@ + "\n"@,
        ),
        occurs(
            summary_text(title, r, f),
            "Range     : "@ + or_dash(r.summary.earliest) + "  →  "@ + or_dash(r.summary.latest)
                + "   ("@ + f.span_days@ + " days)\n"@,
        ),
        occurs(
            summary_text(title, r, f),
            "Projects/Sessions/Messages : "@ + decimal(r.summary.projects as nat) + " / "@
                + decimal(r.summary.sessions as nat) + " / "@ + decimal(r.summary.messages as nat)
                + "\n"@,
        ),
        occurs(
            summary_text(title, r, f),
            "Active sum : "@ + hms_text(r.summary.active_sec as nat) + "   ("@ + f.active_hours@
                + " h)   per-session sum; parallel sessions double-counted\n"@,
        ),
        occurs(
            summary_text(title, r, f),
            "Active union: "@ + hms_text(r.summary.active_sec_union as nat) + "   ("@
                + f.union_hours@ + " h)   wall-clock union; real attention time\n"@,
        ),
        occurs(
            summary_text(title, r, f),
            "Total      : "@ + hms_text(r.summary.total_sec as nat) + "   ("@ + f.total_hours@
                + " h)\n"@,
        ),
        occurs(summary_text(title, r, f), "Active/Total: "@ + f.active_percent@ + "%\n"@),
        occurs(summary_text(title, r, f), "Avg active/day: "@ + f.active_per_day@ + " h\n"@),
        occurs(
            summary_text(title, r, f),
            "Tokens     : in="@ + decimal(r.summary.tokens.input as nat) + "  out="@
                + decimal(r.summary.tokens.output as nat) + "  cache_write="@
                + decimal(r.summary.tokens.cache_create_5m as nat) + "+"@
                + decimal(r.summary.tokens.cache_create_1h as nat) + "  cache_read="@
                + decimal(r.summary.tokens.cache_read as nat) + "   total="@
                + decimal(r.summary.tokens@.total() as nat) + "\n"@,
        ),
        occurs(
            summary_text(title, r, f),
            "Iterations : "@ + decimal(r.summary.tokens.iterations as nat)
                + " model calls   (avg "@ + f.calls_per_message@ + " per assistant turn)\n"@,
        ),
        occurs(summary_text(title, r, f), "TZ         : "@ + r.summary.tz_offset@ + "\n"@),
        occurs(
            summary_text(title, r, f),
            "Cache hit  : "@ + f.cache_percent@
                + "%   (cache_read / [input + cache_write + cache_read])\n"@,
        ),
        occurs(summary_text(title, r, f), "Cost (est.): $"@ + f.cost@ + " USD\n"@),
{
    lemma_summary_shows(title, r, f, 0);
}

/// The first ten projects have a line each with the place, the activity, the
/// name, the messages and the cost; so has every model, and each of the first
/// ten skills.
pub proof fn law_the_summary_shows_its_rows(title: Seq<char>, r: Report, f: Figures, i: int)
    requires
        f.project_costs@.len() == shown(r.projects@.len()),
        f.model_costs@.len() == r.by_model@.len(),
    ensures
        0 <= i < 10 && i < r.projects@.len() ==> occurs(
            summary_text(title, r, f),
            "  "@ + filled(decimal((i + 1) as nat), 2, ' ') + ". "@
                + hms_text(r.projects@[i].active_sec as nat) + "  "@ + r.projects@[i].name@
                + "  msgs="@ + decimal(r.projects@[i].messages as nat) + "  $"@
                + f.project_costs@[i]@ + "\n"@,
        ),
        0 <= i < r.by_model@.len() ==> occurs(
            summary_text(title, r, f),
            "  "@ + filled_right(r.by_model@[i].name@, 24, ' ') + "  msgs="@
                + filled(decimal(r.by_model@[i].messages as nat), 6, ' ') + "  $"@
                + f.model_costs@[i]@ + "\n"@,
        ),
        0 <= i < 10 && i < r.by_skill@.len() ==> occurs(
            summary_text(title, r, f),
            "  "@ + filled_right(r.by_skill@[i].name@, 40, ' ') + "  msgs="@
                + decimal(r.by_skill@[i].messages as nat) + "\n"@,
        ),
{
    lemma_summary_shows(title, r, f, i);
}

proof fn lemma_summary_shows(title: Seq<char>, r: Report, f: Figures, i: int)
    ensures
        occurs(
            summary_text(title, r, f),
            title + "   gap="@ + decimal(r.summary.gap_threshold_min as nat) + "m   generated "@
                + r.summary.generated_at@ + "\n"@,
        ),
        occurs(
            summary_text(title, r, f),
            "Range     : "@ + or_dash(r.summary.earliest) + "  →  "@ + or_dash(r.summary.latest)
                + "   ("@ + f.span_days@ + " days)\n"@,
        ),
        occurs(
            summary_text(title, r, f),
            "Projects/Sessions/Messages : "@ + decimal(r.summary.projects as nat) + " / "@
                + decimal(r.summary.sessions as nat) + " / "@ + decimal(r.summary.messages as nat)
                + "\n"@,
        ),
        occurs(
            summary_text(title, r, f),
            "Active sum : "@ + hms_text(r.summary.active_sec as nat) + "   ("@ + f.active_hours@
                + " h)   per-session sum; parallel sessions double-counted\n"@,
        ),
        occurs(
            summary_text(title, r, f),
            "Active union: "@ + hms_text(r.summary.active_sec_union as nat) + "   ("@
                + f.union_hours@ + " h)   wall-clock union; real attention time\n"@,
        ),
        occurs(
            summary_text(title, r, f),
            "Total      : "@ + hms_text(r.summary.total_sec as nat) + "   ("@ + f.total_hours@
                + " h)\n"@,
        ),
        occurs(summary_text(title, r, f), "Active/Total: "@ + f.active_percent@ + "%\n"@),
        occurs(summary_text(title, r, f), "Avg active/day: "@ + f.active_per_day@ + " h\n"@),
        occurs(
            summary_text(title, r, f),
            "Tokens     : in="@ + decimal(r.summary.tokens.input as nat) + "  out="@
                + decimal(r.summary.tokens.output as nat) + "  cache_write="@
                + decimal(r.summary.tokens.cache_create_5m as nat) + "+"@
                + decimal(r.summary.tokens.cache_create_1h as nat) + "  cache_read="@
                + decimal(r.summary.tokens.cache_read as nat) + "   total="@
                + token_text(r.summary.tokens@) + "\n"@,
        ),
        occurs(
            summary_text(title, r, f),
            "Iterations : "@ + decimal(r.summary.tokens.iterations as nat)
                + " model calls   (avg "@ + f.calls_per_message@ + " per assistant turn)\n"@,
        ),
        occurs(summary_text(title, r, f), "TZ         : "@ + r.summary.tz_offset@ + "\n"@),
        occurs(
            summary_text(title, r, f),
            "Cache hit  : "@ + f.cache_percent@
                + "%   (cache_read / [input + cache_write + cache_read])\n"@,
        ),
        occurs(summary_text(title, r, f), "Cost (est.): $"@ + f.cost@ + " USD\n"@),
        0 <= i < shown(r.projects@.len()) ==> occurs(
            summary_text(title, r, f),
            "  "@ + filled(decimal((i + 1) as nat), 2, ' ') + ". "@
                + hms_text(r.projects@[i].active_sec as nat) + "  "@ + r.projects@[i].name@
                + "  msgs="@ + decimal(r.projects@[i].messages as nat) + "  $"@
                + texts(f.project_costs@)[i] + "\n"@,
        ),
        0 <= i < r.by_model@.len() ==> occurs(
            summary_text(title, r, f),
            "  "@ + filled_right(r.by_model@[i].name@, 24, ' ') + "  msgs="@
                + filled(decimal(r.by_model@[i].messages as nat), 6, ' ') + "  $"@
                + texts(f.model_costs@)[i] + "\n"@,
        ),
        0 <= i < shown(r.by_skill@.len()) ==> occurs(
            summary_text(title, r, f),
            "  "@ + filled_right(r.by_skill@[i].name@, 40, ' ') + "  msgs="@
                + decimal(r.by_skill@[i].messages as nat) + "\n"@,
        ),
{
    let whole = summary_text(title, r, f);
    let s = r.summary;
    let head = summary_head(title, s, f);
    let times = with_times(head, s, f);
    let tokens = with_tokens(times, s, f);
    let n = shown(r.projects@.len()) as int;
    let projects = with_projects(tokens, r.projects@, texts(f.project_costs@), n);
    let models = if r.by_model@.len() > 0 {
        with_models(projects, r.by_model@, texts(f.model_costs@), r.by_model@.len() as int)
    } else {
        projects
    };
    assert(whole =~= whole.subrange(0, whole.len() as int));
    if r.by_skill@.len() > 0 {
        lemma_skills_show(models, r.by_skill@, shown(r.by_skill@.len()) as int, i, whole);
    }
    if r.by_model@.len() > 0 {
        lemma_models_show(
            projects,
            r.by_model@,
            texts(f.model_costs@),
            r.by_model@.len() as int,
            i,
            whole,
        );
    }
    lemma_projects_show(tokens, r.projects@, texts(f.project_costs@), n, i, whole);
    lemma_tokens_show(times, s, f, whole);
    lemma_times_show(head, s, f, whole);
    lemma_head_shows(title, s, f, whole);
}

proof fn lemma_first_projects(
    out: Seq<char>,
    a: Seq<ProjectStat>,
    b: Seq<ProjectStat>,
    costs: Seq<Seq<char>>,
    n: int,
)
    requires
        forall|i: int| 0 <= i < n ==> a[i] == #[trigger] b[i],
    ensures
        with_projects(out, a, costs, n) == with_projects(out, b, costs, n),
    decreases n,
{
    if n > 0 {
        lemma_first_projects(out, a, b, costs, n - 1);
        assert(a[n - 1] == b[n - 1]);
    }
}

proof fn lemma_first_skills(out: Seq<char>, a: Seq<NamedStat>, b: Seq<NamedStat>, n: int)
    requires
        forall|i: int| 0 <= i < n ==> a[i] == #[trigger] b[i],
    ensures
        with_skills(out, a, n) == with_skills(out, b, n),
    decreases n,
{
    if n > 0 {
        lemma_first_skills(out, a, b, n - 1);
        assert(a[n - 1] == b[n - 1]);
    }
}

/// Projects and skills after the tenth change nothing in the summary, nor does
/// anything of the report besides its summary, projects, models and skills.
pub proof fn law_the_summary_goes_by_the_first_ten(
    title: Seq<char>,
    a: Report,
    b: Report,
    f: Figures,
)
    requires
        a.summary == b.summary,
        a.by_model@ == b.by_model@,
        a.projects@.len() == b.projects@.len() || (a.projects@.len() >= 10 && b.projects@.len()
            >= 10),
        a.by_skill@.len() == b.by_skill@.len() || (a.by_skill@.len() >= 10 && b.by_skill@.len()
            >= 10),
        forall|i: int|
            0 <= i < 10 && i < a.projects@.len() ==> a.projects@[i] == #[trigger] b.projects@[i],
        forall|i: int|
            0 <= i < 10 && i < a.by_skill@.len() ==> a.by_skill@[i] == #[trigger] b.by_skill@[i],
    ensures
        summary_text(title, a, f) == summary_text(title, b, f),
{
    let s = a.summary;
    let out = with_tokens(with_times(summary_head(title, s, f), s, f), s, f);
    let costs = texts(f.project_costs@);
    lemma_first_projects(out, a.projects@, b.projects@, costs, shown(a.projects@.len()) as int);
    let out = with_projects(out, a.projects@, costs, shown(a.projects@.len()) as int);
    let out = if a.by_model@.len() > 0 {
        with_models(out, a.by_model@, texts(f.model_costs@), a.by_model@.len() as int)
    } else {
        out
    };
    lemma_first_skills(out, a.by_skill@, b.by_skill@, shown(a.by_skill@.len()) as int);
}

/// A page with the data where its mark stood.
pub open spec fn filled_page(page: Seq<char>, data: Seq<char>) -> Seq<char> {
    replaced(page, "/*__CC_STATS_DATA__*/null"@, data)
}

/// The data stands in the page in place of the mark, and all else of the page
/// stays; a page without a mark stays as it is.
pub proof fn law_data_takes_the_place_of_the_mark(
    a: Seq<char>,
    b: Seq<char>,
    data: Seq<char>,
    page: Seq<char>,
)
    requires
        !occurs(a + "/*__CC_STATS_DATA__*/null"@.drop_last(), "/*__CC_STATS_DATA__*/null"@),
        !occurs(b, "/*__CC_STATS_DATA__*/null"@),
        !occurs(page, "/*__CC_STATS_DATA__*/null"@),
    ensures
        filled_page(a + "/*__CC_STATS_DATA__*/null"@ + b, data) == a + data + b,
        filled_page(page, data) == page,
{
    reveal_strlit("/*__CC_STATS_DATA__*/null");
    law_replacing_goes_from_place_to_place(a, "/*__CC_STATS_DATA__*/null"@, b, data, page);
}

/// Puts the data of a report into a page, wherever the page has the mark for
/// it.
pub fn fill_template(page: &str, data: &str) -> (r: String)
    ensures
        r@ == replaced(page@, "/*__CC_STATS_DATA__*/null"@, data@),
        r@ == filled_page(page@, data@),
{
    proof {
        reveal_strlit("/*__CC_STATS_DATA__*/null");
    }
    replace_all(page, "/*__CC_STATS_DATA__*/null", data)
}

/// Which files are asked for.
#[derive(Clone, Copy, Debug, PartialEq, Eq, Structural)]
pub struct Outputs {
    pub json: bool,
    pub csv: bool,
    pub html: bool,
}

/// Which files a format in lower case asks for.
pub open spec fn outputs_of(lower: Seq<char>) -> Outputs {
    Outputs {
        json: lower == "all"@ || lower == "json"@,
        csv: lower == "all"@ || lower == "csv"@,
        html: lower == "all"@ || lower == "html"@,
    }
}

/// A format asks for its own file, `all` asks for every file, and any other text
/// asks for none.
pub proof fn law_a_format_asks_for_its_file(other: Seq<char>)
    requires
        other != "all"@ && other != "json"@ && other != "csv"@ && other != "html"@,
    ensures
        outputs_of("all"@) == (Outputs { json: true, csv: true, html: true }),
        outputs_of("json"@) == (Outputs { json: true, csv: false, html: false }),
        outputs_of("csv"@) == (Outputs { json: false, csv: true, html: false }),
        outputs_of("html"@) == (Outputs { json: false, csv: false, html: true }),
        outputs_of(other) == (Outputs { json: false, csv: false, html: false }),
{
    reveal_strlit("all");
    reveal_strlit("json");
    reveal_strlit("csv");
    reveal_strlit("html");
    assert("all"@[0] == 'a' && "json"@[0] == 'j' && "csv"@[0] == 'c' && "html"@[0] == 'h');
}

/// Which files a format in lower case asks for.
pub fn outputs_for(lower: &str) -> (r: Outputs)
    ensures
        r == outputs_of(lower@),
{
    let all = same_text(lower, "all");
    Outputs {
        json: all || same_text(lower, "json"),
        csv: all || same_text(lower, "csv"),
        html: all || same_text(lower, "html"),
    }
}

/// Which files a format asks for. Case does not matter.
pub fn wanted_outputs(format: &str) -> (r: Outputs)
    ensures
        r == outputs_of(lowercase(format@)),
{
    outputs_for(to_lowercase(format).as_str())
}

} // verus!
