//! The parameter reader: the text it was built on, the expected names, and
//! the parse of that text into a map from name to value.

use crate::text::{
    after_first, chars_of, contains, find, is_first_occurrence, lemma_first_occurrence,
    line_end, lines_of, next_line_feed, string_of, strip_cr, trim, trim_bounds,
};
use vstd::prelude::*;

verus! {

/// Why a reader could not be built or its text could not be parsed.
#[derive(Debug, PartialEq, Eq)]
pub enum ParameterError {
    /// The expected names that no line mentions, in the order they were expected.
    MissingParam(Vec<String>),
    /// A line that mentions an expected name but holds no delimiter.
    BadDelimiter(String),
    /// The description of why the text could not be read.
    ReadContentError(String),
}

/// The mathematical value of a `ParameterError`.
pub enum ErrorView {
    MissingParam(Seq<Seq<char>>),
    BadDelimiter(Seq<char>),
    ReadContentError(Seq<char>),
}

impl View for ParameterError {
    type V = ErrorView;

    open spec fn view(&self) -> ErrorView {
        match self {
            ParameterError::MissingParam(names) => ErrorView::MissingParam(
                names@.map_values(|s: String| s@),
            ),
            ParameterError::BadDelimiter(line) => ErrorView::BadDelimiter(line@),
            ParameterError::ReadContentError(message) => ErrorView::ReadContentError(message@),
        }
    }
}

/// `line` mentions at least one of `names`.
pub open spec fn mentions_any(line: Seq<char>, names: Seq<Seq<char>>) -> bool {
    exists|j: int| 0 <= j < names.len() && contains(line, names[j])
}

/// `line` mentions one of `names` but does not hold the delimiter `d`.
pub open spec fn is_bad_line(line: Seq<char>, names: Seq<Seq<char>>, d: Seq<char>) -> bool {
    mentions_any(line, names) && !contains(line, d)
}

/// The first of `lines` that is bad, if any.
pub open spec fn first_bad_line(lines: Seq<Seq<char>>, names: Seq<Seq<char>>, d: Seq<char>) -> Option<
    Seq<char>,
>
    decreases lines.len(),
{
    if lines.len() == 0 {
        None
    } else {
        match first_bad_line(lines.drop_last(), names, d) {
            Some(l) => Some(l),
            None => if is_bad_line(lines.last(), names, d) {
                Some(lines.last())
            } else {
                None
            },
        }
    }
}

/// The value that `line` carries: what follows its first delimiter, trimmed.
pub open spec fn value_of(line: Seq<char>, d: Seq<char>) -> Seq<char> {
    trim(after_first(line, d))
}

/// The value recorded for `name`: that of the last of `lines` that mentions it.
pub open spec fn last_value(lines: Seq<Seq<char>>, name: Seq<char>, d: Seq<char>) -> Option<
    Seq<char>,
>
    decreases lines.len(),
{
    if lines.len() == 0 {
        None
    } else if contains(lines.last(), name) {
        Some(value_of(lines.last(), d))
    } else {
        last_value(lines.drop_last(), name, d)
    }
}

/// Some line of `lines` mentions `name`.
pub open spec fn mentioned(lines: Seq<Seq<char>>, name: Seq<char>) -> bool {
    exists|i: int| 0 <= i < lines.len() && contains(lines[i], name)
}

/// The names that no line mentions, in their given order.
pub open spec fn missing_names(lines: Seq<Seq<char>>, names: Seq<Seq<char>>) -> Seq<Seq<char>> {
    names.filter(|n: Seq<char>| !mentioned(lines, n))
}

/// The result of parsing `content` for `names` with delimiter `d`: the first
/// bad line if there is one; else the missing names if there are any; else the
/// map from each name to the value of the last line that mentions it.
pub open spec fn parse_outcome(content: Seq<char>, names: Seq<Seq<char>>, d: Seq<char>) -> Result<
    Map<Seq<char>, Seq<char>>,
    ErrorView,
> {
    let lines = lines_of(content);
    match first_bad_line(lines, names, d) {
        Some(l) => Err(ErrorView::BadDelimiter(l)),
        None => if missing_names(lines, names).len() > 0 {
            Err(ErrorView::MissingParam(missing_names(lines, names)))
        } else {
            Ok(Map::new(|n: Seq<char>| names.contains(n), |n: Seq<char>| last_value(lines, n, d)->0))
        },
    }
}

/// A bad line, once met, stays the first one whatever lines follow.
pub proof fn lemma_first_bad_line_kept(
    a: Seq<Seq<char>>,
    b: Seq<Seq<char>>,
    names: Seq<Seq<char>>,
    d: Seq<char>,
)
    requires
        first_bad_line(a, names, d) is Some,
    ensures
        first_bad_line(a + b, names, d) == first_bad_line(a, names, d),
    decreases b.len(),
{
    if b.len() == 0 {
        assert(a + b =~= a);
    } else {
        lemma_first_bad_line_kept(a, b.drop_last(), names, d);
        assert((a + b).drop_last() =~= a + b.drop_last());
    }
}

/// A name has a recorded value exactly when some line mentions it.
pub proof fn lemma_last_value_mentioned(lines: Seq<Seq<char>>, name: Seq<char>, d: Seq<char>)
    ensures
        last_value(lines, name, d) is Some <==> mentioned(lines, name),
    decreases lines.len(),
{
    if lines.len() > 0 {
        let init = lines.drop_last();
        lemma_last_value_mentioned(init, name, d);
        if mentioned(init, name) {
            let i = choose|i: int| 0 <= i < init.len() && contains(init[i], name);
            assert(contains(lines[i], name));
        }
        if mentioned(lines, name) && !contains(lines.last(), name) {
            let i = choose|i: int| 0 <= i < lines.len() && contains(lines[i], name);
            assert(contains(init[i], name));
        }
    }
}

/// The parsed values, keyed by parameter name.
#[derive(Debug)]
pub struct ParameterMap {
    keys: Vec<String>,
    values: Vec<String>,
}

impl ParameterMap {
    /// Keys and values pair up, and a key that appears twice has one value.
    #[verifier::type_invariant]
    spec fn consistent(&self) -> bool {
        &&& self.keys.len() == self.values.len()
        &&& forall|i: int, j: int|
            0 <= i < self.keys.len() && 0 <= j < self.keys.len() && self.keys[i]@
                == self.keys[j]@ ==> self.values[i]@ == self.values[j]@
    }

    /// The value stored for `name`, if any.
    pub fn get(&self, name: &str) -> (r: Option<&String>)
        ensures
            r is Some <==> self@.contains_key(name@),
            r matches Some(v) ==> v@ == self@[name@],
    {
        proof {
            use_type_invariant(self);
        }
        let key = name.to_owned();
        let mut i: usize = 0;
        while i < self.keys.len()
            invariant
                key@ == name@,
                self.consistent(),
                forall|j: int| 0 <= j < i ==> self.keys[j]@ != name@,
            decreases self.keys.len() - i,
        {
            if self.keys[i] == key {
                proof {
                    let k = choose|k: int| 0 <= k < self.keys.len() && self.keys[k]@ == name@;
                    assert(self.values[k]@ == self.values[i as int]@);
                }
                return Some(&self.values[i]);
            }
            i = i + 1;
        }
        None
    }

    /// Whether a value is stored for `name`.
    pub fn contains_key(&self, name: &str) -> (r: bool)
        ensures
            r == self@.contains_key(name@),
    {
        self.get(name).is_some()
    }
}

impl View for ParameterMap {
    type V = Map<Seq<char>, Seq<char>>;

    closed spec fn view(&self) -> Map<Seq<char>, Seq<char>> {
        Map::new(
            |k: Seq<char>| exists|i: int| 0 <= i < self.keys.len() && self.keys[i]@ == k,
            |k: Seq<char>|
                self.values[choose|i: int| 0 <= i < self.keys.len() && self.keys[i]@ == k]@,
        )
    }
}

/// The lines of `t` from `start` on: the one that ends at the line feed `e`
/// (or at the end of `t`), without its ending, then the lines after it.
proof fn lemma_next_line(t: Seq<char>, start: int, e: int, hi: int)
    requires
        0 <= start < e <= t.len() || (0 <= start == e < t.len()),
        e == start + line_end(t.skip(start)),
        hi == (if e < t.len() && e > start && t[e - 1] == '\r' {
            e - 1
        } else {
            e
        }),
    ensures
        lines_of(t.skip(start)) == seq![t.subrange(start, hi)] + lines_of(
            t.skip(if e < t.len() {
                e + 1
            } else {
                e
            }),
        ),
{
    let s = t.skip(start);
    assert(s.len() > 0);
    if e < t.len() {
        assert(s.take(e - start) =~= t.subrange(start, e));
        assert(strip_cr(t.subrange(start, e)) =~= t.subrange(start, hi));
        assert(s.skip(e - start + 1) =~= t.skip(e + 1));
    } else {
        assert(s =~= t.subrange(start, hi));
        assert(lines_of(t.skip(e)) =~= seq![]) by {
            assert(t.skip(e).len() == 0);
        }
        assert(seq![s] + seq![] =~= seq![s]);
    }
}

/// The view of one slot of a parse in progress.
pub open spec fn slot_view(o: Option<String>) -> Option<Seq<char>> {
    match o {
        Some(v) => Some(v@),
        None => None,
    }
}

/// The view of what `parse_parameters` returns.
pub open spec fn result_view(r: Result<ParameterMap, ParameterError>) -> Result<
    Map<Seq<char>, Seq<char>>,
    ErrorView,
> {
    match r {
        Ok(m) => Ok(m@),
        Err(e) => Err(e@),
    }
}

/// A text to read parameters from, and the names expected in it.
#[derive(Debug)]
pub struct ParameterReader {
    content: String,
    parameters: &'static [&'static str],
}

impl ParameterReader {
    /// The text the reader holds.
    pub closed spec fn text(&self) -> Seq<char> {
        self.content@
    }

    /// The expected names, in order.
    pub closed spec fn names(&self) -> Seq<Seq<char>> {
        self.parameters@.map_values(|p: &str| p@)
    }

    /// Builds a reader from the outcome of reading its text: the text, or
    /// the description of why it could not be read.
    pub fn build(content: Result<String, String>, parameters: &'static [&'static str]) -> (r:
        Result<Self, ParameterError>)
        ensures
            content matches Ok(c) ==> r matches Ok(reader) && reader.text() == c@ && reader.names()
                == parameters@.map_values(|p: &str| p@),
            content matches Err(m) ==> r matches Err(ParameterError::ReadContentError(e)) && e@
                == m@,
    {
        match content {
            Ok(content) => Ok(ParameterReader { content, parameters }),
            Err(message) => Err(ParameterError::ReadContentError(message)),
        }
    }

    /// Parses the text with `delimiter`: every line that mentions an expected
    /// name must hold the delimiter, and each name gets the trimmed text after
    /// the first delimiter of the last line that mentions it. Fails with the
    /// first line that mentions a name but lacks the delimiter, or else with
    /// every name that no line mentions.
    pub fn parse_parameters(&self, delimiter: &'static str) -> (r: Result<
        ParameterMap,
        ParameterError,
    >)
        ensures
            result_view(r) == parse_outcome(self.text(), self.names(), delimiter@),
    {
        let text = chars_of(self.content.as_str());
        let d = chars_of(delimiter);
        let names = self.name_chars();
        let ghost nm = self.names();
        let ghost lines = lines_of(text@);
        assert(names@.map_values(|n: Vec<char>| n@) =~= nm);
        let slots = match scan(&text, &names, &d) {
            Ok(slots) => slots,
            Err(e) => {
                return Err(e);
            },
        };
        let mut missing: Vec<String> = Vec::new();
        let mut j: usize = 0;
        while j < slots.len()
            invariant
                j <= slots.len() == nm.len() == self.parameters@.len(),
                nm == self.names(),
                forall|k: int|
                    0 <= k < slots.len() ==> slot_view(#[trigger] slots[k]) == last_value(
                        lines,
                        nm[k],
                        d@,
                    ),
                missing@.map_values(|m: String| m@) == nm.take(j as int).filter(
                    |n: Seq<char>| !mentioned(lines, n),
                ),
            decreases slots.len() - j,
        {
            proof {
                lemma_last_value_mentioned(lines, nm[j as int], d@);
                assert(nm.take(j + 1) =~= nm.take(j as int).push(nm[j as int]));
                nm.take(j as int).lemma_filter_push(
                    nm[j as int],
                    |n: Seq<char>| !mentioned(lines, n),
                );
            }
            if slots[j].is_none() {
                missing.push(self.parameters[j].to_owned());
                assert(missing@.map_values(|m: String| m@) =~= nm.take(j as int).filter(
                    |n: Seq<char>| !mentioned(lines, n),
                ).push(nm[j as int]));
            }
            j = j + 1;
        }
        assert(nm.take(nm.len() as int) =~= nm);
        if missing.len() > 0 {
            return Err(ParameterError::MissingParam(missing));
        }
        let mut keys: Vec<String> = Vec::new();
        let mut values: Vec<String> = Vec::new();
        let mut j: usize = 0;
        while j < slots.len()
            invariant
                j <= slots.len() == nm.len() == self.parameters@.len(),
                nm == self.names(),
                forall|k: int|
                    0 <= k < slots.len() ==> slot_view(#[trigger] slots[k]) == last_value(
                        lines,
                        nm[k],
                        d@,
                    ),
                nm.filter(|n: Seq<char>| !mentioned(lines, n)).len() == 0,
                keys.len() == j,
                values.len() == j,
                forall|k: int| 0 <= k < j ==> #[trigger] keys[k]@ == nm[k],
                forall|k: int|
                    0 <= k < j ==> Some(#[trigger] values[k]@) == last_value(lines, nm[k], d@),
            decreases slots.len() - j,
        {
            proof {
                lemma_last_value_mentioned(lines, nm[j as int], d@);
                if !mentioned(lines, nm[j as int]) {
                    nm.lemma_filter_contains(|n: Seq<char>| !mentioned(lines, n), j as int);
                }
            }
            keys.push(self.parameters[j].to_owned());
            match &slots[j] {
                Some(v) => values.push(v.clone()),
                None => {},
            }
            j = j + 1;
        }
        let map = ParameterMap { keys, values };
        assert forall|n: Seq<char>| #[trigger] map@.contains_key(n) <==> nm.contains(n) by {
            if nm.contains(n) {
                let i = choose|i: int| 0 <= i < nm.len() && nm[i] == n;
                assert(map.keys[i]@ == n);
            }
            if map@.contains_key(n) {
                let i = choose|i: int| 0 <= i < map.keys.len() && map.keys[i]@ == n;
                assert(nm[i] == n);
            }
        }
        assert forall|n: Seq<char>| #[trigger] map@.contains_key(n) implies map@[n] == last_value(
            lines,
            n,
            d@,
        )->0 by {
            let i = choose|i: int| 0 <= i < map.keys.len() && map.keys[i]@ == n;
            assert(Some(map.values[i]@) == last_value(lines, nm[i], d@));
        }
        assert(map@ =~= Map::new(
            |n: Seq<char>| nm.contains(n),
            |n: Seq<char>| last_value(lines, n, d@)->0,
        ));
        Ok(map)
    }

    /// The characters of each expected name.
    fn name_chars(&self) -> (r: Vec<Vec<char>>)
        ensures
            r.len() == self.names().len(),
            forall|j: int| 0 <= j < r.len() ==> r[j]@ == self.names()[j],
    {
        let mut r: Vec<Vec<char>> = Vec::new();
        let mut j: usize = 0;
        while j < self.parameters.len()
            invariant
                j <= self.parameters.len(),
                r.len() == j,
                forall|k: int| 0 <= k < j ==> r[k]@ == self.names()[k],
            decreases self.parameters.len() - j,
        {
            r.push(chars_of(self.parameters[j]));
            j = j + 1;
        }
        r
    }
}

/// Scans the lines of `text` in order; on each line, each name that the line
/// mentions gets the line's value. Stops at the first bad line.
fn scan(text: &Vec<char>, names: &Vec<Vec<char>>, d: &Vec<char>) -> (r: Result<
    Vec<Option<String>>,
    ParameterError,
>)
    ensures
        ({
            let lines = lines_of(text@);
            let nm = names@.map_values(|n: Vec<char>| n@);
            match first_bad_line(lines, nm, d@) {
                Some(l) => r matches Err(e) && e@ == ErrorView::BadDelimiter(l),
                None => r matches Ok(slots) && slots.len() == names.len() && forall|j: int|
                    0 <= j < slots.len() ==> slot_view(#[trigger] slots[j]) == last_value(
                        lines,
                        nm[j],
                        d@,
                    ),
            }
        }),
{
    let ghost nm = names@.map_values(|n: Vec<char>| n@);
    let mut slots: Vec<Option<String>> = Vec::new();
    let mut j: usize = 0;
    while j < names.len()
        invariant
            j <= names.len(),
            slots.len() == j,
            forall|k: int| 0 <= k < j ==> slots[k] is None,
        decreases names.len() - j,
    {
        slots.push(None);
        j = j + 1;
    }
    let mut start: usize = 0;
    let ghost mut done: Seq<Seq<char>> = seq![];
    assert(done + lines_of(text@.skip(0)) =~= lines_of(text@)) by {
        assert(text@.skip(0) =~= text@);
    }
    while start < text.len()
        invariant
            start <= text.len(),
            nm == names@.map_values(|n: Vec<char>| n@),
            lines_of(text@) == done + lines_of(text@.skip(start as int)),
            first_bad_line(done, nm, d@) is None,
            slots.len() == names.len(),
            forall|k: int|
                0 <= k < slots.len() ==> slot_view(#[trigger] slots[k]) == last_value(
                    done,
                    nm[k],
                    d@,
                ),
        decreases text.len() - start,
    {
        let e = next_line_feed(text, start);
        let hi = if e < text.len() && e > start && text[e - 1] == '\r' {
            e - 1
        } else {
            e
        };
        let next = if e < text.len() {
            e + 1
        } else {
            e
        };
        let ghost line = text@.subrange(start as int, hi as int);
        proof {
            lemma_next_line(text@, start as int, e as int, hi as int);
        }
        let dpos = find(text, start, hi, d);
        let mut j: usize = 0;
        while j < names.len()
            invariant
                j <= names.len() == slots.len(),
                nm == names@.map_values(|n: Vec<char>| n@),
                start <= hi <= text.len(),
                line == text@.subrange(start as int, hi as int),
                lines_of(text@) == done + lines_of(text@.skip(start as int)),
                lines_of(text@.skip(start as int)) == seq![line] + lines_of(
                    text@.skip(next as int),
                ),
                first_bad_line(done, nm, d@) is None,
                dpos is None <==> !contains(line, d@),
                dpos matches Some(p) ==> start <= p && is_first_occurrence(line, d@, p - start),
                dpos is None ==> forall|k: int| 0 <= k < j ==> !contains(line, nm[k]),
                forall|k: int|
                    0 <= k < j ==> slot_view(#[trigger] slots[k]) == last_value(
                        done.push(line),
                        nm[k],
                        d@,
                    ),
                forall|k: int|
                    j <= k < slots.len() ==> slot_view(#[trigger] slots[k]) == last_value(
                        done,
                        nm[k],
                        d@,
                    ),
            decreases names.len() - j,
        {
            let hit = find(text, start, hi, &names[j]);
            assert(done.push(line).drop_last() =~= done);
            if hit.is_some() {
                match dpos {
                    None => {
                        proof {
                            assert(contains(line, nm[j as int]));
                            assert(is_bad_line(line, nm, d@));
                            lemma_first_bad_line_kept(
                                done.push(line),
                                lines_of(text@.skip(next as int)),
                                nm,
                                d@,
                            );
                            assert(done + (seq![line] + lines_of(text@.skip(next as int)))
                                =~= done.push(line) + lines_of(text@.skip(next as int)));
                        }
                        return Err(ParameterError::BadDelimiter(string_of(text, start, hi)));
                    },
                    Some(p) => {
                        proof {
                            lemma_first_occurrence(line, d@, p - start);
                            assert(line.skip(p - start + d.len()) =~= text@.subrange(
                                p + d.len(),
                                hi as int,
                            ));
                        }
                        let (a, b) = trim_bounds(text, p + d.len(), hi);
                        slots[j] = Some(string_of(text, a, b));
                    },
                }
            }
            j = j + 1;
        }
        proof {
            assert(done + (seq![line] + lines_of(text@.skip(next as int))) =~= done.push(line)
                + lines_of(text@.skip(next as int)));
            assert(done.push(line).drop_last() =~= done);
            done = done.push(line);
        }
        start = next;
    }
    proof {
        assert(lines_of(text@.skip(start as int)) =~= seq![]) by {
            assert(text@.skip(start as int).len() == 0);
        }
        assert(done + seq![] =~= done);
    }
    Ok(slots)
}

/// `names` joined with `sep` between each two.
pub open spec fn joined(names: Seq<Seq<char>>, sep: Seq<char>) -> Seq<char>
    decreases names.len(),
{
    if names.len() == 0 {
        seq![]
    } else if names.len() == 1 {
        names[0]
    } else {
        joined(names.drop_last(), sep) + sep + names.last()
    }
}

/// The text that describes an error to a person.
pub open spec fn message_of(e: ErrorView) -> Seq<char> {
    match e {
        ErrorView::MissingParam(names) => "ParameterReaderError: Missing parameters: \""@ + joined(
            names,
            ", "@,
        ) + "\""@,
        ErrorView::BadDelimiter(line) => "ParameterReaderError: Bad Delimiter at: \""@ + line
            + "\""@,
        ErrorView::ReadContentError(message) => message,
    }
}

impl ParameterError {
    /// The text that describes this error to a person.
    pub fn message(&self) -> (r: String)
        ensures
            r@ == message_of(self@),
    {
        match self {
            ParameterError::MissingParam(names) => {
                let mut r = String::from_str("ParameterReaderError: Missing parameters: \"");
                let ghost prefix = r@;
                let ghost ns = names@.map_values(|s: String| s@);
                let mut j: usize = 0;
                while j < names.len()
                    invariant
                        j <= names.len(),
                        ns == names@.map_values(|s: String| s@),
                        r@ == prefix + joined(ns.take(j as int), ", "@),
                    decreases names.len() - j,
                {
                    assert(ns.take(j + 1).drop_last() =~= ns.take(j as int));
                    if j > 0 {
                        r.append(", ");
                    }
                    r.append(names[j].as_str());
                    assert(r@ == prefix + joined(ns.take(j + 1), ", "@));
                    j = j + 1;
                }
                assert(ns.take(names.len() as int) =~= ns);
                r.append("\"");
                r
            },
            ParameterError::BadDelimiter(line) => {
                let mut r = String::from_str("ParameterReaderError: Bad Delimiter at: \"");
                r.append(line.as_str());
                r.append("\"");
                r
            },
            ParameterError::ReadContentError(message) => message.clone(),
        }
    }
}

} // verus!
