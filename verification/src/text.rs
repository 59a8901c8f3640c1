//! Text as a sequence of characters: searching, trimming, replacing, and the
//! decimal notation of numbers.
use vstd::prelude::*;
use vstd::string::*;
use vstd::utf8::*;

verus! {

broadcast use vstd::string::group_string_axioms;

/// `std::string::String::push`: one character is put at the end.
pub assume_specification[ String::push ](s: &mut String, c: char)
    ensures
        final(s)@ == old(s)@.push(c),
;

/// Whether a character has the Unicode property `White_Space`: the controls
/// from tab to carriage return, the next line control, and the spaces and
/// separators of lines and paragraphs.
pub open spec fn white_space(c: char) -> bool {
    let n = c as int;
    ||| 0x9 <= n <= 0xd
    ||| n == 0x20
    ||| n == 0x85
    ||| n == 0xa0
    ||| n == 0x1680
    ||| 0x2000 <= n <= 0x200a
    ||| n == 0x2028
    ||| n == 0x2029
    ||| n == 0x202f
    ||| n == 0x205f
    ||| n == 0x3000
}

/// Calls `char::is_whitespace`, which answers whether a character has the
/// Unicode property `White_Space`. The characters that have it are those of
/// `white_space`.
#[verifier::external_body]
fn is_white_space(c: char) -> (b: bool)
    ensures
        b == white_space(c),
{
    c.is_whitespace()
}

/// The lower case form of a text under the Unicode case mapping, as
/// `str::to_lowercase` gives it.
pub uninterp spec fn lowercase(s: Seq<char>) -> Seq<char>;

/// Calls `str::to_lowercase`. The result is `lowercase` of the text; the case
/// mapping itself is not said here.
#[verifier::external_body]
pub(crate) fn to_lowercase(s: &str) -> (r: String)
    ensures
        r@ == lowercase(s@),
{
    s.to_lowercase()
}

/// The text in double quotes with escapes, as the `Debug` form of `str` writes
/// it.
pub uninterp spec fn quoted(s: Seq<char>) -> Seq<char>;

/// Formats a text with the `Debug` form of `str`. The result is `quoted` of
/// the text; which characters are escaped is not said here.
#[verifier::external_body]
pub(crate) fn quote(s: &str) -> (r: String)
    ensures
        r@ == quoted(s@),
{
    format!("{:?}", s)
}

/// The characters of a text.
pub fn chars_of(s: &str) -> (v: Vec<char>)
    ensures
        v@ == s@,
{
    let mut v: Vec<char> = Vec::new();
    for c in it: s.chars()
        invariant
            it.seq() == s@,
            v@ == s@.take(it.index()),
    {
        v.push(c);
    }
    v
}

/// The text made of the given characters.
pub fn text_of(v: &Vec<char>) -> (s: String)
    ensures
        s@ == v@,
{
    let mut s = String::new();
    for i in 0..v.len()
        invariant
            s@ == v@.take(i as int),
    {
        s.push(v[i]);
    }
    s
}

/// Whether two texts hold the same characters.
pub fn same_text(a: &str, b: &str) -> (r: bool)
    ensures
        r == (a@ == b@),
{
    let x = a.as_bytes();
    let y = b.as_bytes();
    proof {
        encode_utf8_decode_utf8(a@);
        encode_utf8_decode_utf8(b@);
    }
    if x.len() != y.len() {
        return false;
    }
    for i in 0..x.len()
        invariant
            x@.len() == y@.len(),
            x@ == encode_utf8(a@),
            y@ == encode_utf8(b@),
            forall|j: int| 0 <= j < i ==> x@[j] == y@[j],
    {
        if x[i] != y[i] {
            return false;
        }
    }
    assert(x@ =~= y@);
    true
}

/// `part` stands in `s` at position `i`.
pub open spec fn stands_at(s: Seq<char>, part: Seq<char>, i: int) -> bool {
    0 <= i && i + part.len() <= s.len() && s.subrange(i, i + part.len()) == part
}

/// `part` stands somewhere in `s`.
pub open spec fn occurs(s: Seq<char>, part: Seq<char>) -> bool {
    exists|i: int| stands_at(s, part, i)
}

/// The first position from `from` on at which `part` stands in `s`.
pub open spec fn found_from(s: Seq<char>, part: Seq<char>, from: int) -> Option<int>
    decreases s.len() + 1 - from,
{
    if from < 0 || from + part.len() > s.len() {
        None
    } else if stands_at(s, part, from) {
        Some(from)
    } else {
        found_from(s, part, from + 1)
    }
}

proof fn lemma_found_from(s: Seq<char>, part: Seq<char>, from: int)
    requires
        0 <= from,
    ensures
        match found_from(s, part, from) {
            Some(i) => from <= i && stands_at(s, part, i) && forall|j: int|
                from <= j < i ==> !stands_at(s, part, j),
            None => forall|j: int| from <= j ==> !stands_at(s, part, j),
        },
    decreases s.len() + 1 - from,
{
    if from + part.len() <= s.len() && !stands_at(s, part, from) {
        lemma_found_from(s, part, from + 1);
        match found_from(s, part, from + 1) {
            Some(i) => {
                assert forall|j: int| from <= j < i implies !stands_at(s, part, j) by {
                    if j != from {
                        assert(from + 1 <= j);
                    }
                }
            },
            None => {
                assert forall|j: int| from <= j implies !stands_at(s, part, j) by {
                    if j != from {
                        assert(from + 1 <= j);
                    }
                }
            },
        }
    }
}

/// Searching from the start finds a place if and only if there is one, and
/// then the first.
pub proof fn law_search_finds_the_first_place(s: Seq<char>, part: Seq<char>)
    ensures
        occurs(s, part) <==> found_from(s, part, 0) is Some,
        found_from(s, part, 0) matches Some(i) ==> stands_at(s, part, i) && forall|j: int|
            stands_at(s, part, j) ==> i <= j,
{
    lemma_found_from(s, part, 0);
    match found_from(s, part, 0) {
        Some(i) => {
            assert(stands_at(s, part, i));
        },
        None => {},
    }
}

/// A text stands in another if and only if the other is made of it with
/// something before and after, which may be nothing.
pub proof fn law_what_occurs_stands_between(s: Seq<char>, part: Seq<char>)
    ensures
        occurs(s, part) <==> exists|a: Seq<char>, b: Seq<char>| s == #[trigger] (a + part + b),
{
    if occurs(s, part) {
        let i = choose|i: int| stands_at(s, part, i);
        let a = s.take(i);
        let b = s.skip(i + part.len());
        assert(s.subrange(i, i + part.len()) == part);
        assert(s =~= a + part + b);
    }
    if exists|a: Seq<char>, b: Seq<char>| s == #[trigger] (a + part + b) {
        let (a, b) = choose|a: Seq<char>, b: Seq<char>| s == #[trigger] (a + part + b);
        law_a_part_occurs(a, part, b);
    }
}

/// What stands around a text makes no difference to its being there.
pub proof fn law_a_part_occurs(a: Seq<char>, part: Seq<char>, b: Seq<char>)
    ensures
        occurs(a + part + b, part),
{
    let s = a + part + b;
    let i = a.len() as int;
    assert(s.subrange(i, i + part.len()) =~= part);
    assert(stands_at(s, part, i));
}

fn stands(s: &Vec<char>, part: &Vec<char>, i: usize) -> (r: bool)
    requires
        i + part.len() <= s.len(),
    ensures
        r == stands_at(s@, part@, i as int),
{
    for k in 0..part.len()
        invariant
            i + part.len() <= s.len(),
            forall|j: int| 0 <= j < k ==> s@[i + j] == part@[j],
    {
        if s[i + k] != part[k] {
            assert(s@.subrange(i as int, i + part.len())[k as int] != part@[k as int]);
            return false;
        }
    }
    assert(s@.subrange(i as int, i + part.len()) =~= part@);
    true
}

fn find_from(s: &Vec<char>, part: &Vec<char>, from: usize) -> (r: Option<usize>)
    requires
        from <= s.len(),
    ensures
        match r {
            Some(i) => found_from(s@, part@, from as int) == Some(i as int),
            None => found_from(s@, part@, from as int) is None,
        },
{
    let mut i: usize = from;
    while part.len() <= s.len() - i
        invariant
            from <= i <= s.len(),
            found_from(s@, part@, from as int) == found_from(s@, part@, i as int),
        decreases s.len() - i,
    {
        if stands(s, part, i) {
            return Some(i);
        }
        if i == s.len() {
            assert(s@.subrange(i as int, i as int) =~= part@);
            return None;
        }
        i += 1;
    }
    None
}

/// Whether `part` occurs in `s` (`str::contains` with a text).
pub fn contains_text(s: &str, part: &str) -> (r: bool)
    ensures
        r == occurs(s@, part@),
{
    let a = chars_of(s);
    let b = chars_of(part);
    proof {
        law_search_finds_the_first_place(a@, b@);
    }
    match find_from(&a, &b, 0) {
        Some(_) => true,
        None => false,
    }
}

/// `s` with every `part` replaced by `with`, places taken from left to right
/// without overlap, from position `from` on.
pub open spec fn replaced_from(
    s: Seq<char>,
    part: Seq<char>,
    with: Seq<char>,
    from: int,
) -> Seq<char>
    decreases s.len() - from,
{
    match found_from(s, part, from) {
        Some(i) => if part.len() == 0 || i < from || from < 0 || i + part.len() > s.len() {
            s
        } else {
            s.subrange(from, i) + with + replaced_from(s, part, with, i + part.len())
        },
        None => s.subrange(from, s.len() as int),
    }
}

/// `s` with every `part` replaced by `with`.
pub open spec fn replaced(s: Seq<char>, part: Seq<char>, with: Seq<char>) -> Seq<char> {
    replaced_from(s, part, with, 0)
}

/// Searching from a place on is searching what follows it.
proof fn lemma_found_after(s: Seq<char>, part: Seq<char>, from: int, i: int)
    requires
        0 <= from <= s.len(),
        0 <= i,
    ensures
        found_from(s, part, from + i) == match found_from(s.skip(from), part, i) {
            Some(j) => Some(j + from),
            None => None,
        },
    decreases s.len() + 1 - from - i,
{
    let rest = s.skip(from);
    if from + i + part.len() <= s.len() {
        assert(s.subrange(from + i, from + i + part.len()) =~= rest.subrange(i, i + part.len()));
        if !stands_at(s, part, from + i) {
            lemma_found_after(s, part, from, i + 1);
        }
    }
}

proof fn lemma_replaced_after(s: Seq<char>, part: Seq<char>, with: Seq<char>, from: int, i: int)
    requires
        part.len() > 0,
        0 <= from <= s.len(),
        0 <= i <= s.len() - from,
    ensures
        replaced_from(s, part, with, from + i) == replaced_from(s.skip(from), part, with, i),
    decreases s.len() - from - i,
{
    let rest = s.skip(from);
    lemma_found_after(s, part, from, i);
    lemma_found_from(rest, part, i);
    match found_from(rest, part, i) {
        Some(j) => {
            lemma_replaced_after(s, part, with, from, j + part.len());
            assert(s.subrange(from + i, from + j) =~= rest.subrange(i, j));
        },
        None => {
            assert(s.subrange(from + i, s.len() as int) =~= rest.subrange(i, rest.len() as int));
        },
    }
}

/// A text without the part stays as it is. Of any other, what stands before the
/// first place of the part is kept, the part is replaced, and so on with what
/// follows.
pub proof fn law_replacing_goes_from_place_to_place(
    a: Seq<char>,
    part: Seq<char>,
    b: Seq<char>,
    with: Seq<char>,
    s: Seq<char>,
)
    requires
        part.len() > 0,
        !occurs(a + part.drop_last(), part),
        !occurs(s, part),
    ensures
        replaced(s, part, with) == s,
        replaced(a + part + b, part, with) == a + with + replaced(b, part, with),
        occurs(b, part) || replaced(a + part + b, part, with) == a + with + b,
{
    law_search_finds_the_first_place(s, part);
    assert(s.subrange(0, s.len() as int) =~= s);
    let t = a + part + b;
    let n = a.len() as int;
    lemma_first_place(a, part, b);
    assert(t.subrange(0, n) =~= a);
    lemma_replaced_after(t, part, with, n + part.len(), 0);
    assert(t.skip(n + part.len()) =~= b);
    if !occurs(b, part) {
        law_search_finds_the_first_place(b, part);
        assert(b.subrange(0, b.len() as int) =~= b);
    }
}

/// A part after a text that does not hold it, not even with the part's
/// beginning, is found there first.
proof fn lemma_first_place(a: Seq<char>, part: Seq<char>, b: Seq<char>)
    requires
        part.len() > 0,
        !occurs(a + part.drop_last(), part),
    ensures
        found_from(a + part + b, part, 0) == Some(a.len() as int),
{
    let t = a + part + b;
    let n = a.len() as int;
    let head = a + part.drop_last();
    assert(t.subrange(n, n + part.len()) =~= part);
    assert(stands_at(t, part, n));
    law_search_finds_the_first_place(t, part);
    assert(occurs(t, part));
    let i = found_from(t, part, 0)->0;
    if i < n {
        assert(t.subrange(i, i + part.len()) =~= head.subrange(i, i + part.len()));
        assert(stands_at(head, part, i));
    }
}

/// Replaces every `part` of `s` by `with` (`str::replace`).
pub fn replace_all(s: &str, part: &str, with: &str) -> (r: String)
    requires
        part@.len() > 0,
    ensures
        r@ == replaced(s@, part@, with@),
{
    let a = chars_of(s);
    let b = chars_of(part);
    let w = chars_of(with);
    let mut out: Vec<char> = Vec::new();
    let mut from: usize = 0;
    let mut next: Option<usize> = find_from(&a, &b, 0);
    while next.is_some()
        invariant
            a@ == s@,
            b@ == part@,
            w@ == with@,
            b@.len() > 0,
            from <= a.len(),
            match next {
                Some(i) => found_from(a@, b@, from as int) == Some(i as int),
                None => found_from(a@, b@, from as int) is None,
            },
            out@ + replaced_from(a@, b@, w@, from as int) == replaced(a@, b@, w@),
        decreases a.len() - from,
    {
        let i: usize = next.unwrap();
        proof {
            lemma_found_from(a@, b@, from as int);
        }
        let ghost before = out@;
        let ghost start = from as int;
        push_range(&mut out, &a, from, i);
        push_range(&mut out, &w, 0, w.len());
        from = i + b.len();
        next = find_from(&a, &b, from);
        proof {
            assert(w@.subrange(0, w@.len() as int) =~= w@);
            assert(out@ =~= before + (a@.subrange(start, i as int) + w@));
            let rest = replaced_from(a@, b@, w@, from as int);
            assert(out@ + rest =~= before + (a@.subrange(start, i as int) + w@ + rest));
        }
    }
    push_range(&mut out, &a, from, a.len());
    text_of(&out)
}

fn push_range(out: &mut Vec<char>, from: &Vec<char>, start: usize, end: usize)
    requires
        start <= end <= from.len(),
    ensures
        final(out)@ == old(out)@ + from@.subrange(start as int, end as int),
{
    let ghost before = out@;
    for i in start..end
        invariant
            start <= end <= from.len(),
            out@ == before + from@.subrange(start as int, i as int),
    {
        out.push(from[i]);
        assert(out@ =~= before + from@.subrange(start as int, i + 1));
    }
}

/// `s` without the whitespace at its start.
pub open spec fn trimmed_start(s: Seq<char>) -> Seq<char>
    decreases s.len(),
{
    if s.len() > 0 && white_space(s[0]) {
        trimmed_start(s.drop_first())
    } else {
        s
    }
}

/// `s` without the whitespace at its end.
pub open spec fn trimmed_end(s: Seq<char>) -> Seq<char>
    decreases s.len(),
{
    if s.len() > 0 && white_space(s.last()) {
        trimmed_end(s.drop_last())
    } else {
        s
    }
}

/// `s` without the whitespace at its two ends.
pub open spec fn trimmed(s: Seq<char>) -> Seq<char> {
    trimmed_end(trimmed_start(s))
}

/// Every character is whitespace.
pub open spec fn is_blank(s: Seq<char>) -> bool {
    forall|i: int| 0 <= i < s.len() ==> white_space(#[trigger] s[i])
}

proof fn lemma_trimmed_start(before: Seq<char>, s: Seq<char>)
    requires
        is_blank(before),
        s.len() > 0 ==> !white_space(s[0]),
    ensures
        trimmed_start(before + s) == s,
    decreases before.len(),
{
    if before.len() == 0 {
        assert(before + s =~= s);
    } else {
        assert((before + s)[0] == before[0]);
        assert((before + s).drop_first() =~= before.drop_first() + s);
        lemma_trimmed_start(before.drop_first(), s);
    }
}

proof fn lemma_trimmed_end(s: Seq<char>, after: Seq<char>)
    requires
        is_blank(after),
        s.len() > 0 ==> !white_space(s.last()),
    ensures
        trimmed_end(s + after) == s,
    decreases after.len(),
{
    if after.len() == 0 {
        assert(s + after =~= s);
    } else {
        assert((s + after).last() == after[after.len() - 1]);
        assert((s + after).drop_last() =~= s + after.drop_last());
        lemma_trimmed_end(s, after.drop_last());
    }
}

/// Whitespace around a text that neither starts nor ends with any is what
/// trimming drops.
pub proof fn law_trimming_drops_what_is_around(before: Seq<char>, s: Seq<char>, after: Seq<char>)
    requires
        is_blank(before),
        is_blank(after),
        s.len() > 0,
        !white_space(s[0]),
        !white_space(s.last()),
    ensures
        trimmed(before + s + after) == s,
{
    assert(before + s + after =~= before + (s + after));
    lemma_trimmed_start(before, s + after);
    lemma_trimmed_end(s, after);
}

/// Nothing is left of a text by trimming if and only if it is all whitespace.
pub proof fn law_trimming_leaves_nothing_of_blanks(s: Seq<char>)
    ensures
        trimmed(s).len() == 0 <==> is_blank(s),
{
    lemma_blank_start(s);
    lemma_blank_end(trimmed_start(s));
}

proof fn lemma_blank_start(s: Seq<char>)
    ensures
        is_blank(trimmed_start(s)) <==> is_blank(s),
        is_blank(s) ==> trimmed_start(s).len() == 0,
    decreases s.len(),
{
    if s.len() > 0 && white_space(s[0]) {
        let rest = s.drop_first();
        lemma_blank_start(rest);
        if is_blank(rest) {
            assert forall|i: int| 0 <= i < s.len() implies white_space(#[trigger] s[i]) by {
                if i > 0 {
                    assert(white_space(rest[i - 1]));
                }
            }
        }
        if is_blank(s) {
            assert forall|i: int| 0 <= i < rest.len() implies white_space(#[trigger] rest[i]) by {
                assert(white_space(s[i + 1]));
            }
        }
    }
}

proof fn lemma_blank_end(s: Seq<char>)
    ensures
        trimmed_end(s).len() == 0 <==> is_blank(s),
    decreases s.len(),
{
    if s.len() > 0 {
        let rest = s.drop_last();
        if white_space(s.last()) {
            lemma_blank_end(rest);
            if is_blank(rest) {
                assert forall|i: int| 0 <= i < s.len() implies white_space(#[trigger] s[i]) by {
                    if i < rest.len() {
                        assert(white_space(rest[i]));
                    }
                }
            }
            if is_blank(s) {
                assert forall|i: int| 0 <= i < rest.len() implies white_space(
                    #[trigger] rest[i],
                ) by {
                    assert(white_space(s[i]));
                }
            }
        } else {
            assert(!white_space(s[s.len() - 1]));
        }
    }
}

/// The text without the whitespace at its two ends (`str::trim`).
pub fn trim(s: &str) -> (r: &str)
    ensures
        r@ == trimmed(s@),
{
    let v = chars_of(s);
    let mut start: usize = 0;
    assert(s@.subrange(0, s@.len() as int) =~= s@);
    while start < v.len() && is_white_space(v[start])
        invariant
            v@ == s@,
            start <= v.len(),
            trimmed_start(s@) == trimmed_start(s@.subrange(start as int, s@.len() as int)),
        ensures
            start <= v.len(),
            start < v.len() ==> !white_space(v@[start as int]),
        decreases v.len() - start,
    {
        proof {
            let rest = s@.subrange(start as int, s@.len() as int);
            assert(rest.drop_first() =~= s@.subrange(start + 1, s@.len() as int));
        }
        start += 1;
    }
    let ghost rest = s@.subrange(start as int, s@.len() as int);
    let mut end: usize = v.len();
    while start < end && is_white_space(v[end - 1])
        invariant
            v@ == s@,
            start <= end <= v.len(),
            trimmed_end(rest) == trimmed_end(s@.subrange(start as int, end as int)),
        ensures
            start <= end <= v.len(),
            start < end ==> !white_space(v@[end - 1]),
        decreases end - start,
    {
        proof {
            let part = s@.subrange(start as int, end as int);
            assert(part.drop_last() =~= s@.subrange(start as int, end - 1));
        }
        end -= 1;
    }
    s.substring_char(start, end)
}

/// What stands before and after the first `mark` of `s`, where there is one.
pub open spec fn split_at_first(s: Seq<char>, mark: Seq<char>) -> Option<(Seq<char>, Seq<char>)> {
    match found_from(s, mark, 0) {
        Some(i) => Some((s.take(i), s.skip(i + mark.len()))),
        None => None,
    }
}

/// A text is split around the first mark: what stands before it holds no mark,
/// not even with the mark's beginning, and what stands after it is all the
/// rest. A text without a mark is not split.
pub proof fn law_splitting_is_around_the_first_mark(
    a: Seq<char>,
    mark: Seq<char>,
    b: Seq<char>,
    s: Seq<char>,
)
    requires
        mark.len() > 0,
        !occurs(a + mark.drop_last(), mark),
        !occurs(s, mark),
    ensures
        split_at_first(a + mark + b, mark) == Some((a, b)),
        split_at_first(s, mark) is None,
{
    lemma_first_place(a, mark, b);
    let t = a + mark + b;
    assert(t.take(a.len() as int) =~= a);
    assert(t.skip((a.len() + mark.len()) as int) =~= b);
    law_search_finds_the_first_place(s, mark);
}

/// Splits a text around the first `mark` (`str::split_once`).
pub fn split_once<'a>(s: &'a str, mark: &str) -> (r: Option<(&'a str, &'a str)>)
    ensures
        match r {
            Some((a, b)) => split_at_first(s@, mark@) == Some((a@, b@)),
            None => split_at_first(s@, mark@) is None,
        },
{
    let v = chars_of(s);
    let m = chars_of(mark);
    proof {
        lemma_found_from(v@, m@, 0);
    }
    match find_from(&v, &m, 0) {
        Some(i) => {
            let end: usize = v.len();
            let a = s.substring_char(0, i);
            let b = s.substring_char(i + m.len(), end);
            assert(a@ =~= s@.take(i as int));
            assert(b@ =~= s@.skip(i + m@.len()));
            Some((a, b))
        },
        None => None,
    }
}

/// What follows `prefix` in `s`, where `s` starts with it.
pub open spec fn after_prefix(s: Seq<char>, prefix: Seq<char>) -> Option<Seq<char>> {
    if prefix.is_prefix_of(s) {
        Some(s.skip(prefix.len() as int))
    } else {
        None
    }
}

/// A prefix comes off the texts that start with it, and off no others.
pub proof fn law_prefixes_come_off(prefix: Seq<char>, rest: Seq<char>, s: Seq<char>)
    requires
        forall|t: Seq<char>| s != #[trigger] (prefix + t),
    ensures
        after_prefix(prefix + rest, prefix) == Some(rest),
        after_prefix(s, prefix) is None,
{
    let p = prefix + rest;
    assert(p.subrange(0, prefix.len() as int) =~= prefix);
    assert(p.skip(prefix.len() as int) =~= rest);
    if prefix.is_prefix_of(s) {
        assert(s =~= prefix + s.skip(prefix.len() as int));
    }
}

/// Takes a prefix off a text (`str::strip_prefix`).
pub fn strip_prefix<'a>(s: &'a str, prefix: &str) -> (r: Option<&'a str>)
    ensures
        match r {
            Some(t) => after_prefix(s@, prefix@) == Some(t@),
            None => after_prefix(s@, prefix@) is None,
        },
{
    let v = chars_of(s);
    let p = chars_of(prefix);
    if p.len() <= v.len() && stands(&v, &p, 0) {
        let t = s.substring_char(p.len(), v.len());
        assert(t@ =~= s@.skip(p@.len() as int));
        Some(t)
    } else {
        None
    }
}

/// The lower case form of an ASCII capital; any other character as it is.
pub open spec fn ascii_lower(c: char) -> char {
    if 'A' <= c <= 'Z' {
        (c as u8 + 32) as char
    } else {
        c
    }
}

/// `a` and `b` are the same but for the case of ASCII letters.
pub open spec fn same_ignoring_case(a: Seq<char>, b: Seq<char>) -> bool {
    a.map_values(|c: char| ascii_lower(c)) == b.map_values(|c: char| ascii_lower(c))
}

/// Texts that are the same but for case differ in nothing but ASCII letters, and
/// there by the distance of a capital from its small letter.
pub proof fn law_case_is_of_ascii_letters(a: Seq<char>, b: Seq<char>)
    ensures
        same_ignoring_case(a, b) <==> a.len() == b.len() && forall|i: int|
            0 <= i < a.len() ==> #[trigger] a[i] == b[i] || ('A' <= a[i] <= 'Z' && b[i] as int
                == a[i] as int + 32) || ('A' <= b[i] <= 'Z' && a[i] as int == b[i] as int + 32),
{
    let f = |c: char| ascii_lower(c);
    let x = a.map_values(f);
    let y = b.map_values(f);
    assert('A' as int == 65 && 'Z' as int == 90);
    if same_ignoring_case(a, b) {
        assert(x.len() == y.len());
        assert forall|i: int| 0 <= i < a.len() implies #[trigger] a[i] == b[i] || ('A' <= a[i]
            <= 'Z' && b[i] as int == a[i] as int + 32) || ('A' <= b[i] <= 'Z' && a[i] as int
            == b[i] as int + 32) by {
            assert(x[i] == y[i]);
            lemma_ascii_lower(a[i]);
            lemma_ascii_lower(b[i]);
        }
    }
    if a.len() == b.len() && forall|i: int|
        0 <= i < a.len() ==> #[trigger] a[i] == b[i] || ('A' <= a[i] <= 'Z' && b[i] as int
            == a[i] as int + 32) || ('A' <= b[i] <= 'Z' && a[i] as int == b[i] as int + 32) {
        assert forall|i: int| 0 <= i < x.len() implies x[i] == y[i] by {
            lemma_ascii_lower(a[i]);
            lemma_ascii_lower(b[i]);
            assert(a[i] == b[i] || ('A' <= a[i] <= 'Z' && b[i] as int == a[i] as int + 32) || ('A'
                <= b[i] <= 'Z' && a[i] as int == b[i] as int + 32));
        }
        assert(x =~= y);
    }
}

proof fn lemma_ascii_lower(c: char)
    ensures
        'A' <= c <= 'Z' ==> ascii_lower(c) as int == c as int + 32,
        !('A' <= c <= 'Z') ==> ascii_lower(c) == c,
{
    assert('A' as int == 65 && 'Z' as int == 90);
    if 'A' <= c <= 'Z' {
        assert(c as u8 + 32 == c as int + 32);
    }
}

fn to_ascii_lower(c: char) -> (r: char)
    ensures
        r == ascii_lower(c),
{
    if 'A' <= c && c <= 'Z' {
        (c as u8 + 32) as char
    } else {
        c
    }
}

/// Whether two texts are the same but for the case of ASCII letters
/// (`str::eq_ignore_ascii_case`).
pub fn equals_ignoring_case(a: &str, b: &str) -> (r: bool)
    ensures
        r == same_ignoring_case(a@, b@),
{
    let x = chars_of(a);
    let y = chars_of(b);
    let ghost f = |c: char| ascii_lower(c);
    if x.len() != y.len() {
        assert(a@.map_values(f).len() != b@.map_values(f).len());
        return false;
    }
    for i in 0..x.len()
        invariant
            x@ == a@,
            y@ == b@,
            x.len() == y.len(),
            forall|j: int| 0 <= j < i ==> ascii_lower(x@[j]) == ascii_lower(y@[j]),
    {
        if to_ascii_lower(x[i]) != to_ascii_lower(y[i]) {
            assert(a@.map_values(|c: char| ascii_lower(c))[i as int] != b@.map_values(
                |c: char| ascii_lower(c),
            )[i as int]);
            return false;
        }
    }
    assert(a@.map_values(f) =~= b@.map_values(f));
    true
}

/// The decimal digit of a number below ten.
pub open spec fn digit_char(d: int) -> char {
    (48 + d) as char
}

/// The decimal notation of a number.
pub open spec fn decimal(n: nat) -> Seq<char>
    decreases n,
{
    if n < 10 {
        seq![digit_char(n as int)]
    } else {
        decimal(n / 10).push(digit_char((n % 10) as int))
    }
}

/// `s` filled up on the left with `fill` to at least `width` characters.
pub open spec fn filled(s: Seq<char>, width: nat, fill: char) -> Seq<char> {
    Seq::new((if s.len() < width { width - s.len() } else { 0 }) as nat, |i: int| fill) + s
}

/// `s` filled up on the right with `fill` to at least `width` characters.
pub open spec fn filled_right(s: Seq<char>, width: nat, fill: char) -> Seq<char> {
    s + Seq::new((if s.len() < width { width - s.len() } else { 0 }) as nat, |i: int| fill)
}

/// Appends a text, filled up on the right.
pub fn push_padded_right(out: &mut String, s: &str, width: usize, fill: char)
    ensures
        final(out)@ == old(out)@ + filled_right(s@, width as nat, fill),
{
    let ghost before = out@;
    let have: usize = s.unicode_len();
    out.append(s);
    let mut i: usize = have;
    let ghost pad = Seq::<char>::empty();
    assert(out@ =~= before + s@ + pad);
    while i < width
        invariant
            have <= i,
            i <= width || i == have,
            pad.len() == i - have,
            forall|j: int| 0 <= j < pad.len() ==> pad[j] == fill,
            out@ == before + s@ + pad,
        decreases width - i,
    {
        out.push(fill);
        proof {
            pad = pad.push(fill);
        }
        assert(out@ =~= before + s@ + pad);
        i += 1;
    }
    assert(out@ =~= before + filled_right(s@, width as nat, fill));
}

/// Appends the decimal notation of a number.
pub fn push_decimal(out: &mut String, n: u128)
    ensures
        final(out)@ == old(out)@ + decimal(n as nat),
    decreases n,
{
    let ghost before = out@;
    if n >= 10 {
        push_decimal(out, n / 10);
    }
    let d: u8 = (n % 10) as u8;
    out.push((48 + d) as char);
    assert(out@ =~= before + decimal(n as nat));
}

/// Appends a number in decimal notation, filled up on the left.
pub fn push_filled(out: &mut String, n: u128, width: usize, fill: char)
    ensures
        final(out)@ == old(out)@ + filled(decimal(n as nat), width as nat, fill),
{
    let mut digits = String::new();
    push_decimal(&mut digits, n);
    assert(digits@ =~= decimal(n as nat));
    push_padded(out, digits.as_str(), width, fill);
}

/// Appends a text, filled up on the left.
pub fn push_padded(out: &mut String, s: &str, width: usize, fill: char)
    ensures
        final(out)@ == old(out)@ + filled(s@, width as nat, fill),
{
    let ghost before = out@;
    let have: usize = s.unicode_len();
    let mut i: usize = have;
    let ghost pad = Seq::<char>::empty();
    while i < width
        invariant
            have <= i,
            i <= width || i == have,
            pad.len() == i - have,
            forall|j: int| 0 <= j < pad.len() ==> pad[j] == fill,
            out@ == before + pad,
        decreases width - i,
    {
        out.push(fill);
        proof {
            pad = pad.push(fill);
        }
        assert(out@ =~= before + pad);
        i += 1;
    }
    out.append(s);
    assert(out@ =~= before + filled(s@, width as nat, fill));
}

/// The number that a run of decimal digits denotes.
pub open spec fn digits_value(s: Seq<char>) -> Option<int>
    decreases s.len(),
{
    if s.len() == 0 {
        Some(0)
    } else {
        match digits_value(s.drop_last()) {
            Some(n) if '0' <= s.last() <= '9' => Some(n * 10 + (s.last() as int - 48)),
            _ => None,
        }
    }
}

/// Reading the decimal notation of a number gives the number back.
pub proof fn law_decimal_reads_back(n: nat)
    ensures
        digits_value(decimal(n)) == Some(n as int),
    decreases n,
{
    let s = decimal(n);
    assert('0' as int == 48 && '9' as int == 57);
    if n < 10 {
        assert(s.drop_last() =~= Seq::<char>::empty());
        assert(digits_value(s.drop_last()) == Some(0int));
        assert(s.last() == digit_char(n as int));
    } else {
        law_decimal_reads_back(n / 10);
        assert(s.drop_last() =~= decimal(n / 10));
        assert(s.last() == digit_char((n % 10) as int));
    }
}

/// The decimal notation is made of digits, and starts with a zero for zero
/// alone.
pub proof fn law_decimal_is_made_of_digits(n: nat)
    ensures
        decimal(n).len() > 0,
        forall|i: int| 0 <= i < decimal(n).len() ==> '0' <= #[trigger] decimal(n)[i] <= '9',
        n > 0 ==> decimal(n)[0] != '0',
        n == 0 ==> decimal(n) == seq!['0'],
    decreases n,
{
    assert('0' as int == 48 && '9' as int == 57);
    if n >= 10 {
        let first = decimal(n / 10);
        law_decimal_is_made_of_digits(n / 10);
        assert forall|i: int| 0 <= i < decimal(n).len() implies '0' <= #[trigger] decimal(n)[i]
            <= '9' by {
            if i < first.len() {
                assert(decimal(n)[i] == first[i]);
            }
        }
        assert(decimal(n)[0] == first[0]);
    } else if n == 0 {
        assert(decimal(n) =~= seq!['0']);
    }
}

/// A text that is filled up keeps its characters at its end, or at its start,
/// and has the fill before them, or after them, up to the width; one that is
/// long enough stays as it is.
pub proof fn law_filling_reaches_the_width(s: Seq<char>, width: nat, fill: char)
    ensures
        s.len() >= width ==> filled(s, width, fill) == s && filled_right(s, width, fill) == s,
        s.len() < width ==> filled(s, width, fill).len() == width && filled_right(
            s,
            width,
            fill,
        ).len() == width,
        filled(s, width, fill).skip(filled(s, width, fill).len() - s.len()) == s,
        filled_right(s, width, fill).take(s.len() as int) == s,
        forall|i: int|
            0 <= i < filled(s, width, fill).len() - s.len() ==> #[trigger] filled(s, width, fill)[i]
                == fill,
        forall|i: int|
            s.len() <= i < filled_right(s, width, fill).len() ==> #[trigger] filled_right(
                s,
                width,
                fill,
            )[i] == fill,
{
    let l = filled(s, width, fill);
    let r = filled_right(s, width, fill);
    if s.len() >= width {
        assert(l =~= s);
        assert(r =~= s);
    }
    assert(l.skip(l.len() - s.len()) =~= s);
    assert(r.take(s.len() as int) =~= s);
}

/// Zeros on the left do not change what digits denote.
pub proof fn law_zeros_on_the_left_denote_nothing(s: Seq<char>, zeros: Seq<char>)
    requires
        forall|i: int| 0 <= i < zeros.len() ==> #[trigger] zeros[i] == '0',
    ensures
        digits_value(zeros + s) == digits_value(s),
    decreases s.len(), zeros.len(),
{
    if s.len() > 0 {
        law_zeros_on_the_left_denote_nothing(s.drop_last(), zeros);
        assert((zeros + s).drop_last() =~= zeros + s.drop_last());
        assert((zeros + s).last() == s.last());
    } else if zeros.len() > 0 {
        let fewer = zeros.drop_last();
        assert(forall|i: int| 0 <= i < fewer.len() ==> fewer[i] == zeros[i]);
        law_zeros_on_the_left_denote_nothing(s, fewer);
        assert((zeros + s).drop_last() =~= fewer + s);
        assert((zeros + s).last() == zeros[zeros.len() - 1]);
        assert('0' as int == 48);
    }
}

/// Numbers filled up with zeros are told apart.
pub proof fn law_filled_numbers_are_told_apart(a: nat, b: nat, width: nat)
    requires
        a != b,
    ensures
        filled(decimal(a), width, '0') != filled(decimal(b), width, '0'),
{
    let x = decimal(a);
    let y = decimal(b);
    law_decimal_reads_back(a);
    law_decimal_reads_back(b);
    law_zeros_on_the_left_denote_nothing(
        x,
        Seq::new((if x.len() < width { width - x.len() } else { 0 }) as nat, |i: int| '0'),
    );
    law_zeros_on_the_left_denote_nothing(
        y,
        Seq::new((if y.len() < width { width - y.len() } else { 0 }) as nat, |i: int| '0'),
    );
}

/// The number that an optional sign and one or more decimal digits denote,
/// where it is within `i32` (`str::parse` to an `i32`).
pub open spec fn i32_value(s: Seq<char>) -> Option<int> {
    let signed = s.len() > 0 && (s[0] == '+' || s[0] == '-');
    let digits = if signed {
        s.drop_first()
    } else {
        s
    };
    if digits.len() == 0 {
        None
    } else {
        match digits_value(digits) {
            Some(n) => {
                let v = if signed && s[0] == '-' {
                    -n
                } else {
                    n
                };
                if i32::MIN <= v <= i32::MAX {
                    Some(v)
                } else {
                    None
                }
            },
            None => None,
        }
    }
}

/// Something else than a digit makes digits denote nothing.
proof fn lemma_not_all_digits(s: Seq<char>, i: int)
    requires
        0 <= i < s.len(),
        !('0' <= s[i] <= '9'),
    ensures
        digits_value(s) is None,
    decreases s.len(),
{
    if i < s.len() - 1 {
        lemma_not_all_digits(s.drop_last(), i);
    }
}

/// A number is read from its decimal notation, with a sign before it or
/// without, where it can be held; nothing is read from a sign alone, from
/// nothing, or where something else than a digit follows the sign.
pub proof fn law_signed_numbers_are_read(n: nat, s: Seq<char>, i: int)
    requires
        0 < i < s.len(),
        !('0' <= s[i] <= '9'),
    ensures
        i32_value(decimal(n)) == if n <= i32::MAX {
            Some(n as int)
        } else {
            None
        },
        i32_value(seq!['+'] + decimal(n)) == if n <= i32::MAX {
            Some(n as int)
        } else {
            None
        },
        i32_value(seq!['-'] + decimal(n)) == if -n >= i32::MIN {
            Some(-n)
        } else {
            None
        },
        i32_value(seq!['+']) is None,
        i32_value(seq!['-']) is None,
        i32_value(Seq::empty()) is None,
        i32_value(s) is None,
{
    let d = decimal(n);
    law_decimal_reads_back(n);
    law_decimal_is_made_of_digits(n);
    assert('0' as int == 48 && '9' as int == 57 && '+' as int == 43 && '-' as int == 45);
    assert('0' <= d[0] <= '9');
    assert((seq!['+'] + d).drop_first() =~= d);
    assert((seq!['-'] + d).drop_first() =~= d);
    assert(seq!['+'].drop_first().len() == 0);
    assert(seq!['-'].drop_first().len() == 0);
    lemma_not_all_digits(s, i);
    lemma_not_all_digits(s.drop_first(), i - 1);
}

/// A run of digits denotes no less than any beginning of it.
proof fn lemma_digits_value_grows(s: Seq<char>, i: int)
    requires
        0 <= i <= s.len(),
    ensures
        digits_value(s) matches Some(n) ==> digits_value(s.take(i)) matches Some(m) && 0 <= m <= n,
    decreases s.len(),
{
    if i == s.len() {
        assert(s.take(i) =~= s);
        if s.len() > 0 {
            lemma_digits_value_grows(s.drop_last(), i - 1);
            assert(s.drop_last().take(i - 1) =~= s.drop_last());
        }
    } else {
        lemma_digits_value_grows(s.drop_last(), i);
        assert(s.drop_last().take(i) =~= s.take(i));
    }
}

/// Reads a decimal number with an optional sign (`str::parse` to an `i32`).
pub fn parse_i32(s: &str) -> (r: Option<i32>)
    ensures
        match r {
            Some(n) => i32_value(s@) == Some(n as int),
            None => i32_value(s@) is None,
        },
{
    let v = chars_of(s);
    let signed = v.len() > 0 && (v[0] == '+' || v[0] == '-');
    let negative = v.len() > 0 && v[0] == '-';
    let first: usize = if signed {
        1
    } else {
        0
    };
    if v.len() == first {
        return None;
    }
    let ghost digits = if signed {
        s@.drop_first()
    } else {
        s@
    };
    let mut n: i64 = 0;
    for i in first..v.len()
        invariant
            v@ == s@,
            first == if signed {
                1int
            } else {
                0int
            },
            first <= v.len(),
            signed == (s@.len() > 0 && (s@[0] == '+' || s@[0] == '-')),
            digits == if signed {
                s@.drop_first()
            } else {
                s@
            },
            digits.len() == v.len() - first,
            digits.len() > 0,
            0 <= n <= 2147483648,
            digits_value(digits.take(i - first)) == Some(n as int),
    {
        let c = v[i];
        let ghost k = i - first;
        proof {
            assert(digits[k] == c);
            assert(digits.take(k + 1).drop_last() =~= digits.take(k));
            assert(digits.take(k + 1).last() == c);
            lemma_digits_value_grows(digits, k + 1);
        }
        if c < '0' || c > '9' {
            return None;
        }
        let d: i64 = (c as u32 - 48) as i64;
        n = n * 10 + d;
        if n > 2147483648 {
            return None;
        }
    }
    assert(digits.take(digits.len() as int) =~= digits);
    if negative {
        Some((-n) as i32)
    } else if n <= 2147483647 {
        Some(n as i32)
    } else {
        None
    }
}

} // verus!
