//! Properties of a parse that hold for every text, name list and delimiter.

use crate::reader::{
    ErrorView, first_bad_line, is_bad_line, last_value, mentioned, mentions_any, parse_outcome,
    value_of,
};
use crate::text::{contains, lines_of};
use vstd::prelude::*;

verus! {

/// `first_bad_line` is the bad line of least index, and there is none
/// exactly when no line is bad.
pub proof fn lemma_first_bad_line(lines: Seq<Seq<char>>, names: Seq<Seq<char>>, d: Seq<char>)
    ensures
        first_bad_line(lines, names, d) is None <==> forall|i: int|
            0 <= i < lines.len() ==> !is_bad_line(#[trigger] lines[i], names, d),
        first_bad_line(lines, names, d) matches Some(l) ==> exists|i: int|
            0 <= i < lines.len() && lines[i] == l && is_bad_line(l, names, d) && forall|k: int|
                0 <= k < i ==> !is_bad_line(#[trigger] lines[k], names, d),
    decreases lines.len(),
{
    if lines.len() > 0 {
        let init = lines.drop_last();
        lemma_first_bad_line(init, names, d);
        match first_bad_line(init, names, d) {
            Some(l) => {
                let i = choose|i: int|
                    0 <= i < init.len() && init[i] == l && is_bad_line(l, names, d) && forall|
                        k: int,
                    | 0 <= k < i ==> !is_bad_line(#[trigger] init[k], names, d);
                assert(lines[i] == l);
                assert forall|k: int| 0 <= k < i implies !is_bad_line(
                    #[trigger] lines[k],
                    names,
                    d,
                ) by {
                    assert(lines[k] == init[k]);
                }
                assert(!is_bad_line(init[i], names, d) ==> !is_bad_line(lines[i], names, d));
            },
            None => {
                assert forall|k: int| 0 <= k < init.len() implies !is_bad_line(
                    #[trigger] lines[k],
                    names,
                    d,
                ) by {
                    assert(lines[k] == init[k]);
                }
                if is_bad_line(lines.last(), names, d) {
                    assert(lines[lines.len() - 1] == lines.last());
                }
            },
        }
    }
}

/// The value recorded for `name` comes from line `i` when that is the last
/// line that mentions it.
pub proof fn lemma_last_value_at(lines: Seq<Seq<char>>, name: Seq<char>, d: Seq<char>, i: int)
    requires
        0 <= i < lines.len(),
        contains(lines[i], name),
        forall|k: int| i < k < lines.len() ==> !contains(#[trigger] lines[k], name),
    ensures
        last_value(lines, name, d) == Some(value_of(lines[i], d)),
    decreases lines.len(),
{
    if i < lines.len() - 1 {
        assert(!contains(lines[lines.len() - 1], name));
        let init = lines.drop_last();
        assert forall|k: int| i < k < init.len() implies !contains(#[trigger] init[k], name) by {
            assert(init[k] == lines[k]);
        }
        lemma_last_value_at(init, name, d, i);
    }
}

/// A name that some line mentions has a last line that mentions it.
pub proof fn lemma_last_mention(lines: Seq<Seq<char>>, name: Seq<char>) -> (i: int)
    requires
        mentioned(lines, name),
    ensures
        0 <= i < lines.len(),
        contains(lines[i], name),
        forall|k: int| i < k < lines.len() ==> !contains(#[trigger] lines[k], name),
    decreases lines.len(),
{
    if contains(lines.last(), name) {
        lines.len() - 1
    } else {
        let init = lines.drop_last();
        let w = choose|w: int| 0 <= w < lines.len() && contains(lines[w], name);
        assert(w < init.len() && init[w] == lines[w]);
        let i = lemma_last_mention(init, name);
        assert forall|k: int| i < k < lines.len() implies !contains(#[trigger] lines[k], name) by {
            if k < init.len() {
                assert(init[k] == lines[k]);
            }
        }
        i
    }
}

/// Line `i` is the one line of `lines` that mentions `name`.
pub open spec fn sole_mention(lines: Seq<Seq<char>>, name: Seq<char>, i: int) -> bool {
    &&& 0 <= i < lines.len()
    &&& contains(lines[i], name)
    &&& forall|k: int| 0 <= k < lines.len() && k != i ==> !contains(#[trigger] lines[k], name)
}

/// When each expected name is mentioned by exactly one line, and that line
/// holds the delimiter, the parse succeeds: the map has exactly the expected
/// names as keys, each mapped to the trimmed text after the first delimiter
/// of its line.
pub proof fn law_well_formed_text_parses(content: Seq<char>, names: Seq<Seq<char>>, d: Seq<char>)
    requires
        forall|j: int|
            #![trigger names[j]]
            0 <= j < names.len() ==> exists|i: int|
                #[trigger] sole_mention(lines_of(content), names[j], i) && contains(
                    lines_of(content)[i],
                    d,
                ),
    ensures
        parse_outcome(content, names, d) matches Ok(m) && m.dom() == names.to_set() && forall|
            j: int,
            i: int,
        |
            0 <= j < names.len() && #[trigger] sole_mention(lines_of(content), names[j], i)
                ==> m[names[j]] == value_of(lines_of(content)[i], d),
{
    let lines = lines_of(content);
    assert forall|i: int| 0 <= i < lines.len() implies !is_bad_line(
        #[trigger] lines[i],
        names,
        d,
    ) by {
        if mentions_any(lines[i], names) {
            let j = choose|j: int| 0 <= j < names.len() && contains(lines[i], names[j]);
            let w = choose|w: int| sole_mention(lines, names[j], w) && contains(lines[w], d);
            assert(w == i);
        }
    }
    lemma_first_bad_line(lines, names, d);
    let pred = |n: Seq<char>| !mentioned(lines, n);
    if names.filter(pred).len() > 0 {
        names.lemma_filter_pred(pred, 0);
        names.lemma_filter_contains_rev(pred, names.filter(pred)[0]);
        let n = names.filter(pred)[0];
        let j = choose|j: int| 0 <= j < names.len() && names[j] == n;
        let w = choose|w: int| sole_mention(lines, names[j], w) && contains(lines[w], d);
        assert(mentioned(lines, n));
    }
    let m = parse_outcome(content, names, d)->Ok_0;
    assert(m.dom() =~= names.to_set());
    assert forall|j: int, i: int|
        0 <= j < names.len() && #[trigger] sole_mention(lines, names[j], i) implies m[names[j]]
        == value_of(lines[i], d) by {
        lemma_last_value_at(lines, names[j], d, i);
    }
}

/// When no line is bad and some expected name is mentioned by no line, the
/// parse fails listing exactly the names that no line mentions, in the order
/// in which they were expected.
pub proof fn law_missing_names_listed(
    content: Seq<char>,
    names: Seq<Seq<char>>,
    d: Seq<char>,
    j: int,
)
    requires
        forall|i: int|
            0 <= i < lines_of(content).len() ==> !is_bad_line(
                #[trigger] lines_of(content)[i],
                names,
                d,
            ),
        0 <= j < names.len(),
        !mentioned(lines_of(content), names[j]),
    ensures
        parse_outcome(content, names, d) == Err::<Map<Seq<char>, Seq<char>>, ErrorView>(
            ErrorView::MissingParam(
                names.filter(|n: Seq<char>| !mentioned(lines_of(content), n)),
            ),
        ),
{
    let lines = lines_of(content);
    lemma_first_bad_line(lines, names, d);
    let pred = |n: Seq<char>| !mentioned(lines, n);
    names.lemma_filter_contains(pred, j);
}

/// A line that mentions an expected name but holds no delimiter makes the
/// parse fail with that line's exact text, whatever the lines after it hold
/// (provided no earlier line is bad as well).
pub proof fn law_bad_delimiter_reported(
    content: Seq<char>,
    names: Seq<Seq<char>>,
    d: Seq<char>,
    i: int,
    j: int,
)
    requires
        0 <= i < lines_of(content).len(),
        0 <= j < names.len(),
        contains(lines_of(content)[i], names[j]),
        !contains(lines_of(content)[i], d),
        forall|k: int| 0 <= k < i ==> !is_bad_line(#[trigger] lines_of(content)[k], names, d),
    ensures
        parse_outcome(content, names, d) == Err::<Map<Seq<char>, Seq<char>>, ErrorView>(
            ErrorView::BadDelimiter(lines_of(content)[i]),
        ),
{
    let lines = lines_of(content);
    assert(is_bad_line(lines[i], names, d));
    lemma_first_bad_line(lines, names, d);
    let l = first_bad_line(lines, names, d)->0;
    let w = choose|w: int|
        0 <= w < lines.len() && lines[w] == l && is_bad_line(l, names, d) && forall|k: int|
            0 <= k < w ==> !is_bad_line(#[trigger] lines[k], names, d);
    if w < i {
        assert(!is_bad_line(lines[w], names, d));
    }
    if i < w {
        assert(!is_bad_line(lines[i], names, d));
    }
}

/// A bad line takes precedence over missing names: whenever some line is
/// bad, the parse fails with a bad line of the text, whatever names are
/// missing.
pub proof fn law_bad_delimiter_precedes_missing(
    content: Seq<char>,
    names: Seq<Seq<char>>,
    d: Seq<char>,
    i: int,
)
    requires
        0 <= i < lines_of(content).len(),
        is_bad_line(lines_of(content)[i], names, d),
    ensures
        parse_outcome(content, names, d) matches Err(ErrorView::BadDelimiter(l)) && exists|k: int|
            0 <= k < lines_of(content).len() && lines_of(content)[k] == l && is_bad_line(
                l,
                names,
                d,
            ),
{
    lemma_first_bad_line(lines_of(content), names, d);
}

/// A parse keeps nothing from an earlier one: when the same text and names
/// parse with two delimiters, each name takes its value from the same line,
/// the last one that mentions it, split at each delimiter in turn.
pub proof fn law_reparse_with_other_delimiter(
    content: Seq<char>,
    names: Seq<Seq<char>>,
    d1: Seq<char>,
    d2: Seq<char>,
    n: Seq<char>,
)
    requires
        parse_outcome(content, names, d1) is Ok,
        parse_outcome(content, names, d2) is Ok,
        names.contains(n),
    ensures
        exists|i: int|
            0 <= i < lines_of(content).len() && contains(lines_of(content)[i], n) && (forall|
                k: int,
            |
                i < k < lines_of(content).len() ==> !contains(
                    #[trigger] lines_of(content)[k],
                    n,
                )) && parse_outcome(content, names, d1)->Ok_0[n] == value_of(
                lines_of(content)[i],
                d1,
            ) && parse_outcome(content, names, d2)->Ok_0[n] == value_of(lines_of(content)[i], d2),
{
    let lines = lines_of(content);
    let pred = |m: Seq<char>| !mentioned(lines, m);
    let j = choose|j: int| 0 <= j < names.len() && names[j] == n;
    if !mentioned(lines, n) {
        names.lemma_filter_contains(pred, j);
    }
    let i = lemma_last_mention(lines, n);
    lemma_last_value_at(lines, n, d1, i);
    lemma_last_value_at(lines, n, d2, i);
}

} // verus!
