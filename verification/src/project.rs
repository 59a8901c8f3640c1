//! Names of projects: how they are found, merged under a label, and filtered.
use vstd::prelude::*;
use vstd::string::*;
use crate::event::texts;
use crate::text::{
    after_prefix, contains_text, found_from, law_a_part_occurs, law_prefixes_come_off,
    law_splitting_is_around_the_first_mark, law_what_occurs_stands_between, lowercase, occurs,
    replace_all, replaced_from, split_at_first, split_once, stands_at, strip_prefix, to_lowercase,
    trim, trimmed,
};

verus! {

/// A rule that gives every project whose name holds a pattern one label.
pub struct MergeRule {
    pub pattern: String,
    pub label: String,
}

/// A merge rule over plain sequences: pattern and label.
pub struct MergeRuleV {
    pub pattern: Seq<char>,
    pub label: Seq<char>,
}

impl View for MergeRule {
    type V = MergeRuleV;

    open spec fn view(&self) -> MergeRuleV {
        MergeRuleV { pattern: self.pattern@, label: self.label@ }
    }
}

/// Merge rules over plain sequences.
pub open spec fn rule_views(v: Seq<MergeRule>) -> Seq<MergeRuleV> {
    Seq::new(v.len(), |i: int| v[i]@)
}

/// The rule that an argument states: pattern and label around the first `=`,
/// or the pattern as its own label; whitespace around either is dropped.
pub open spec fn rule_in(arg: Seq<char>) -> MergeRuleV {
    match split_at_first(arg, "="@) {
        Some((p, l)) => MergeRuleV { pattern: trimmed(p), label: trimmed(l) },
        None => MergeRuleV { pattern: trimmed(arg), label: trimmed(arg) },
    }
}

/// The first `=` of an argument parts the pattern from the label, and a label may
/// hold more of them; without one, the argument is both. Whitespace around
/// either does not count.
pub proof fn law_the_first_equals_sign_parts_a_rule(p: Seq<char>, l: Seq<char>, other: Seq<char>)
    requires
        !p.contains('='),
        !other.contains('='),
    ensures
        rule_in(p + seq!['='] + l).pattern == trimmed(p),
        rule_in(p + seq!['='] + l).label == trimmed(l),
        rule_in(other).pattern == trimmed(other),
        rule_in(other).label == trimmed(other),
{
    reveal_strlit("=");
    assert("="@ =~= seq!['=']);
    assert("="@.drop_last() =~= Seq::empty());
    assert(p + "="@.drop_last() =~= p);
    lemma_holds_no_sign(p);
    lemma_holds_no_sign(other);
    law_splitting_is_around_the_first_mark(p, "="@, l, other);
}

proof fn lemma_holds_no_sign(s: Seq<char>)
    requires
        !s.contains('='),
    ensures
        !occurs(s, "="@),
{
    reveal_strlit("=");
    if occurs(s, "="@) {
        let i = choose|i: int| stands_at(s, "="@, i);
        assert(s.subrange(i, i + 1)[0] == s[i]);
        assert(s[i] == '=');
    }
}

/// Reads the merge rules that arguments state, one of each.
pub fn parse_merges(args: &[String]) -> (r: Vec<MergeRule>)
    ensures
        rule_views(r@) == texts(args@).map_values(|a: Seq<char>| rule_in(a)),
{
    let mut rules: Vec<MergeRule> = Vec::new();
    for i in 0..args.len()
        invariant
            rules@.len() == i,
            forall|j: int| 0 <= j < i ==> #[trigger] rules@[j]@ == rule_in(args@[j]@),
    {
        let arg = args[i].as_str();
        let rule = match split_once(arg, "=") {
            Some((p, l)) => MergeRule { pattern: trim(p).to_owned(), label: trim(l).to_owned() },
            None => MergeRule { pattern: trim(arg).to_owned(), label: trim(arg).to_owned() },
        };
        rules.push(rule);
    }
    assert(rule_views(rules@) =~= texts(args@).map_values(|a: Seq<char>| rule_in(a)));
    rules
}

/// A rule applies to a name, both in lower case: its pattern is not empty and
/// the name holds it. The pattern's lower case form is given beside it.
pub open spec fn pattern_applies(
    lower_name: Seq<char>,
    pattern: Seq<char>,
    lower_pattern: Seq<char>,
) -> bool {
    pattern.len() > 0 && occurs(lower_name, lower_pattern)
}

/// The name under the first rule from `i` on that applies to it, or the name
/// itself.
pub open spec fn merged_from(name: Seq<char>, rules: Seq<MergeRuleV>, i: int) -> Seq<char>
    decreases rules.len() - i,
{
    if i < 0 || i >= rules.len() {
        name
    } else if pattern_applies(lowercase(name), rules[i].pattern, lowercase(rules[i].pattern)) {
        rules[i].label
    } else {
        merged_from(name, rules, i + 1)
    }
}

/// The label of the first rule that applies to a name, or the name itself.
pub open spec fn merged(name: Seq<char>, rules: Seq<MergeRuleV>) -> Seq<char> {
    merged_from(name, rules, 0)
}

/// A rule with a pattern applies to the names that hold it, whatever stands
/// around it; one without a pattern applies to none.
pub proof fn law_a_pattern_applies_wherever_it_stands(
    lower_name: Seq<char>,
    pattern: Seq<char>,
    lower_pattern: Seq<char>,
)
    ensures
        pattern_applies(lower_name, pattern, lower_pattern) <==> pattern.len() > 0 && exists|
            a: Seq<char>,
            b: Seq<char>,
        | lower_name == #[trigger] (a + lower_pattern + b),
{
    law_what_occurs_stands_between(lower_name, lower_pattern);
}

/// Whether a rule applies to a name, all in lower case where it says so.
pub fn applies(lower_name: &str, pattern: &str, lower_pattern: &str) -> (r: bool)
    ensures
        r == pattern_applies(lower_name@, pattern@, lower_pattern@),
{
    !pattern.is_empty() && contains_text(lower_name, lower_pattern)
}

/// The label of the first rule that applies to a name, or the name itself.
/// Case does not matter.
pub fn apply_merge(name: &str, rules: &[MergeRule]) -> (r: String)
    ensures
        r@ == merged(name@, rule_views(rules@)),
{
    let lower = to_lowercase(name);
    for i in 0..rules.len()
        invariant
            lower@ == lowercase(name@),
            merged(name@, rule_views(rules@)) == merged_from(
                name@,
                rule_views(rules@),
                i as int,
            ),
    {
        let pattern = rules[i].pattern.as_str();
        assert(rule_views(rules@)[i as int] == rules@[i as int]@);
        if applies(lower.as_str(), pattern, to_lowercase(pattern).as_str()) {
            return rules[i].label.clone();
        }
    }
    name.to_owned()
}

/// Without rules, and with rules of empty patterns only, a name stays as it
/// is.
pub proof fn law_empty_patterns_merge_nothing(name: Seq<char>, rules: Seq<MergeRuleV>)
    requires
        forall|i: int| 0 <= i < rules.len() ==> (#[trigger] rules[i]).pattern.len() == 0,
    ensures
        merged(name, rules) == name,
{
    lemma_empty_patterns(name, rules, 0);
}

proof fn lemma_empty_patterns(name: Seq<char>, rules: Seq<MergeRuleV>, i: int)
    requires
        forall|i: int| 0 <= i < rules.len() ==> (#[trigger] rules[i]).pattern.len() == 0,
    ensures
        merged_from(name, rules, i) == name,
    decreases rules.len() - i,
{
    if 0 <= i < rules.len() {
        lemma_empty_patterns(name, rules, i + 1);
    }
}

/// A merged name is the label of a rule that applies, before which none does;
/// or no rule applies, and it is the name.
pub proof fn law_first_rule_that_applies_decides(name: Seq<char>, rules: Seq<MergeRuleV>)
    ensures
        ({
            let hit = |i: int|
                0 <= i < rules.len() && pattern_applies(
                    lowercase(name),
                    rules[i].pattern,
                    lowercase(rules[i].pattern),
                );
            ||| exists|i: int| #[trigger]
                hit(i) && merged(name, rules) == rules[i].label && forall|j: int|
                    0 <= j < i ==> !#[trigger] hit(j)
            ||| merged(name, rules) == name && forall|i: int| !#[trigger] hit(i)
        }),
{
    lemma_first_rule(name, rules, 0);
}

proof fn lemma_first_rule(name: Seq<char>, rules: Seq<MergeRuleV>, from: int)
    requires
        0 <= from <= rules.len(),
    ensures
        ({
            let hit = |i: int|
                0 <= i < rules.len() && pattern_applies(
                    lowercase(name),
                    rules[i].pattern,
                    lowercase(rules[i].pattern),
                );
            ||| exists|i: int| #[trigger]
                hit(i) && from <= i && merged_from(name, rules, from) == rules[i].label && forall|
                    j: int,
                |
                    from <= j < i ==> !#[trigger] hit(j)
            ||| merged_from(name, rules, from) == name && forall|i: int|
                from <= i ==> !#[trigger] hit(i)
        }),
    decreases rules.len() - from,
{
    let hit = |i: int|
        0 <= i < rules.len() && pattern_applies(
            lowercase(name),
            rules[i].pattern,
            lowercase(rules[i].pattern),
        );
    if from < rules.len() {
        if hit(from) {
            assert(hit(from) && from <= from && merged_from(name, rules, from)
                == rules[from].label);
        } else {
            lemma_first_rule(name, rules, from + 1);
            if exists|i: int| #[trigger]
                hit(i) && from + 1 <= i && merged_from(name, rules, from + 1) == rules[i].label
                    && forall|j: int| from + 1 <= j < i ==> !#[trigger] hit(j) {
                let i = choose|i: int| #[trigger]
                    hit(i) && from + 1 <= i && merged_from(name, rules, from + 1) == rules[i].label
                        && forall|j: int| from + 1 <= j < i ==> !#[trigger] hit(j);
                assert(forall|j: int| from <= j < i ==> !#[trigger] hit(j));
            }
        }
    }
}

/// The path that a log folder's name stands for, as far as it can be told:
/// each hyphen was a slash, or a hyphen.
pub open spec fn folder_path(name: Seq<char>) -> Seq<char> {
    name.map_values(
        |c: char|
            if c == '-' {
                '/'
            } else {
                c
            },
    )
}

proof fn lemma_hyphens(s: Seq<char>, from: int)
    requires
        0 <= from <= s.len(),
    ensures
        replaced_from(s, "-"@, "/"@, from) == folder_path(s.subrange(from, s.len() as int)),
    decreases s.len() - from,
{
    reveal_strlit("-");
    reveal_strlit("/");
    let rest = s.subrange(from, s.len() as int);
    let i = match found_from(s, "-"@, from) {
        Some(i) => i,
        None => s.len() as int,
    };
    lemma_no_hyphen_before(s, from);
    if found_from(s, "-"@, from) is Some {
        lemma_hyphens(s, i + 1);
        let tail = s.subrange(i + 1, s.len() as int);
        assert(replaced_from(s, "-"@, "/"@, from) =~= folder_path(rest)) by {
            assert forall|k: int| 0 <= k < rest.len() implies (s.subrange(from, i) + "/"@
                + folder_path(tail))[k] == folder_path(rest)[k] by {
                if k > i - from {
                    assert(folder_path(tail)[k - (i - from) - 1] == folder_path(rest)[k]);
                }
            }
        }
    } else {
        assert(replaced_from(s, "-"@, "/"@, from) =~= folder_path(rest));
    }
}

/// Where the next hyphen is found, and that there is none before it.
proof fn lemma_no_hyphen_before(s: Seq<char>, from: int)
    requires
        0 <= from <= s.len(),
    ensures
        match found_from(s, "-"@, from) {
            Some(i) => from <= i < s.len() && s[i] == '-' && forall|k: int|
                from <= k < i ==> s[k] != '-',
            None => forall|k: int| from <= k < s.len() ==> s[k] != '-',
        },
    decreases s.len() - from,
{
    reveal_strlit("-");
    if from < s.len() {
        assert(stands_at(s, "-"@, from) <==> s[from] == '-') by {
            if s[from] == '-' {
                assert(s.subrange(from, from + 1) =~= "-"@);
            } else {
                assert(s.subrange(from, from + 1)[0] != "-"@[0]);
            }
        }
        if s[from] != '-' {
            lemma_no_hyphen_before(s, from + 1);
        }
    }
}

/// The name of the log folder of a path: its slashes written as hyphens.
pub open spec fn folder_of(path: Seq<char>) -> Seq<char> {
    path.map_values(
        |c: char|
            if c == '/' {
                '-'
            } else {
                c
            },
    )
}

/// The name of a log folder gives the path back where the path has no hyphen.
pub proof fn law_folder_gives_path_back(path: Seq<char>)
    requires
        !path.contains('-'),
    ensures
        folder_path(folder_of(path)) == path,
{
    assert forall|i: int| 0 <= i < path.len() implies folder_path(folder_of(path))[i]
        == path[i] by {
        assert(path.contains(path[i]));
    }
    assert(folder_path(folder_of(path)) =~= path);
}

/// The name of a log folder and the path that it stands for are as long as each
/// other, and the same but for hyphens, which are slashes in the path.
pub proof fn law_hyphens_stand_for_slashes(name: Seq<char>)
    ensures
        folder_path(name).len() == name.len(),
        forall|i: int|
            0 <= i < name.len() ==> (name[i] == '-' ==> #[trigger] folder_path(name)[i] == '/') && (
            name[i] != '-' ==> folder_path(name)[i] == name[i]),
        !folder_path(name).contains('-'),
{
    let path = folder_path(name);
    if path.contains('-') {
        let i = path.index_of('-');
        assert(path[i] == '-');
    }
}

/// The path that a log folder's name stands for: its hyphens read as slashes.
pub fn decode_project_folder(name: &str) -> (r: String)
    ensures
        r@ == folder_path(name@),
{
    proof {
        reveal_strlit("-");
        lemma_hyphens(name@, 0);
        assert(name@.subrange(0, name@.len() as int) =~= name@);
    }
    replace_all(name, "-", "/")
}

/// A project is let through by filters, all in lower case: there is none, or
/// one of them stands in its name or in its working directory.
pub open spec fn let_through(
    lower_name: Seq<char>,
    lower_cwd: Seq<char>,
    lower_filters: Seq<Seq<char>>,
) -> bool {
    lower_filters.len() == 0 || exists|i: int|
        0 <= i < lower_filters.len() && (occurs(lower_name, #[trigger] lower_filters[i]) || occurs(
            lower_cwd,
            lower_filters[i],
        ))
}

/// Without filters every project is let through; with filters, those of which
/// the name or the working directory holds at least one of them, whatever
/// stands around it.
pub proof fn law_any_filter_lets_through(
    lower_name: Seq<char>,
    lower_cwd: Seq<char>,
    lower_filters: Seq<Seq<char>>,
)
    ensures
        let_through(lower_name, lower_cwd, Seq::empty()),
        forall|i: int, a: Seq<char>, b: Seq<char>|
            0 <= i < lower_filters.len() && (lower_name == #[trigger] (a + lower_filters[i] + b)
                || lower_cwd == a + lower_filters[i] + b) ==> let_through(
                lower_name,
                lower_cwd,
                lower_filters,
            ),
        lower_filters.len() > 0 && let_through(lower_name, lower_cwd, lower_filters) ==> exists|
            i: int,
            a: Seq<char>,
            b: Seq<char>,
        |
            0 <= i < lower_filters.len() && (lower_name == #[trigger] (a + lower_filters[i] + b)
                || lower_cwd == a + lower_filters[i] + b),
{
    assert forall|i: int, a: Seq<char>, b: Seq<char>|
        0 <= i < lower_filters.len() && (lower_name == #[trigger] (a + lower_filters[i] + b)
            || lower_cwd == a + lower_filters[i] + b) implies let_through(
        lower_name,
        lower_cwd,
        lower_filters,
    ) by {
        law_a_part_occurs(a, lower_filters[i], b);
    }
    if lower_filters.len() > 0 && let_through(lower_name, lower_cwd, lower_filters) {
        let i = choose|i: int|
            0 <= i < lower_filters.len() && (occurs(lower_name, #[trigger] lower_filters[i])
                || occurs(lower_cwd, lower_filters[i]));
        let f = lower_filters[i];
        law_what_occurs_stands_between(lower_name, f);
        law_what_occurs_stands_between(lower_cwd, f);
        if occurs(lower_name, f) {
            let (a, b) = choose|a: Seq<char>, b: Seq<char>| lower_name == #[trigger] (a + f + b);
            assert(lower_name == a + lower_filters[i] + b);
        } else {
            let (a, b) = choose|a: Seq<char>, b: Seq<char>| lower_cwd == #[trigger] (a + f + b);
            assert(lower_cwd == a + lower_filters[i] + b);
        }
    }
}

/// Texts in lower case.
pub open spec fn lowercase_all(v: Seq<Seq<char>>) -> Seq<Seq<char>> {
    v.map_values(|s: Seq<char>| lowercase(s))
}

/// Whether one of the filters stands in the name or in the working directory,
/// all in lower case; without filters, yes.
pub fn matches_lower(name: &str, cwd: &str, filters: &[String]) -> (r: bool)
    ensures
        r == let_through(name@, cwd@, texts(filters@)),
{
    if filters.len() == 0 {
        return true;
    }
    for i in 0..filters.len()
        invariant
            forall|j: int|
                0 <= j < i ==> !occurs(name@, #[trigger] texts(filters@)[j]) && !occurs(
                    cwd@,
                    texts(filters@)[j],
                ),
            filters@.len() > 0,
    {
        assert(texts(filters@)[i as int] == filters@[i as int]@);
        if contains_text(name, filters[i].as_str()) || contains_text(cwd, filters[i].as_str()) {
            return true;
        }
    }
    false
}

/// Whether a project is let through by filters: without any, it is; else where
/// one stands in its name or in its working directory. Case does not matter.
pub fn matches_project(name: &str, cwd: &str, filters: &[String]) -> (r: bool)
    ensures
        r == let_through(lowercase(name@), lowercase(cwd@), lowercase_all(texts(filters@))),
{
    let name_l = to_lowercase(name);
    let cwd_l = to_lowercase(cwd);
    let mut lower: Vec<String> = Vec::new();
    for i in 0..filters.len()
        invariant
            lower@.len() == i,
            forall|j: int| 0 <= j < i ==> #[trigger] lower@[j]@ == lowercase(filters@[j]@),
    {
        lower.push(to_lowercase(filters[i].as_str()));
    }
    assert(texts(lower@) =~= lowercase_all(texts(filters@)));
    matches_lower(name_l.as_str(), cwd_l.as_str(), lower.as_slice())
}

/// A path with the home directory told apart.
pub enum HomePath {
    /// What follows the home directory.
    UnderHome(String),
    /// The path as it was given.
    Plain(String),
}

/// What follows the home directory in a path that starts with `~/`.
pub open spec fn under_home(p: Seq<char>) -> Option<Seq<char>> {
    after_prefix(p, "~/"@)
}

/// A tilde and a slash at the start of a path stand for the home directory, and
/// nothing else does.
pub proof fn law_a_tilde_at_the_start_is_the_home(rest: Seq<char>, other: Seq<char>)
    requires
        other.len() < 2 || other[0] != '~' || other[1] != '/',
    ensures
        under_home(seq!['~', '/'] + rest) == Some(rest),
        under_home(other) is None,
{
    reveal_strlit("~/");
    assert("~/"@ =~= seq!['~', '/']);
    assert forall|t: Seq<char>| other != #[trigger] ("~/"@ + t) by {
        assert(("~/"@ + t)[0] == '~' && ("~/"@ + t)[1] == '/');
    }
    law_prefixes_come_off("~/"@, rest, other);
}

/// Tells the home directory in a path that starts with `~/`, where the home
/// directory is known; any other path stays as it is.
pub fn expand_tilde(p: &str, home_known: bool) -> (r: HomePath)
    ensures
        match r {
            HomePath::UnderHome(rest) => home_known && after_prefix(p@, "~/"@) == Some(rest@),
            HomePath::Plain(q) => q@ == p@ && (!home_known || after_prefix(p@, "~/"@) is None),
        },
        home_known ==> (r matches HomePath::UnderHome(rest) ==> under_home(p@) == Some(rest@)),
        home_known ==> (r is Plain <==> under_home(p@) is None),
{
    if home_known {
        if let Some(rest) = strip_prefix(p, "~/") {
            return HomePath::UnderHome(rest.to_owned());
        }
    }
    HomePath::Plain(p.to_owned())
}

} // verus!
