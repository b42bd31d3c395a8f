use crate::graph::{Graph, GraphModel, edge_insert, list_model, symmetric};
use vstd::prelude::*;

verus! {

/// Why building a graph from a text source failed.
#[derive(Clone, Copy, Debug, PartialEq, Eq, Structural)]
pub enum BuildError {
    /// The underlying source could not be opened.
    UnableToOpen,
    /// Reading a line from the source failed.
    ReadError,
    /// A line did not split into exactly three space-separated fields.
    InvalidSyntax,
    /// The weight field did not parse as an unsigned machine-word integer.
    InvalidWeight,
}

/// The whitespace trimmed from the ends of a line.
pub open spec fn is_line_ws(c: char) -> bool {
    c == ' ' || c == '\t' || c == '\r' || c == '\n' || c == '\u{000B}' || c == '\u{000C}'
}

/// A line with leading and trailing whitespace removed.
pub open spec fn spec_trim(s: Seq<char>) -> Seq<char>
    decreases s.len(),
{
    if s.len() > 0 && is_line_ws(s.first()) {
        spec_trim(s.drop_first())
    } else if s.len() > 0 && is_line_ws(s.last()) {
        spec_trim(s.drop_last())
    } else {
        s
    }
}

/// The fields of a line split on single space characters; an empty line
/// yields one empty field, consecutive spaces yield empty fields.
pub open spec fn split_fields(s: Seq<char>) -> Seq<Seq<char>>
    decreases s.len(),
{
    if s.len() == 0 {
        seq![Seq::<char>::empty()]
    } else {
        let init = split_fields(s.drop_last());
        if s.last() == ' ' {
            init.push(Seq::<char>::empty())
        } else {
            init.update(init.len() - 1, init.last().push(s.last()))
        }
    }
}

pub open spec fn is_digit(c: char) -> bool {
    '0' <= c && c <= '9'
}

pub open spec fn digit_val(c: char) -> int {
    c as int - '0' as int
}

/// The value of a digit string, most significant digit first.
pub open spec fn digits_val(s: Seq<char>) -> int
    decreases s.len(),
{
    if s.len() == 0 {
        0
    } else {
        digits_val(s.drop_last()) * 10 + digit_val(s.last())
    }
}

pub open spec fn all_digits(s: Seq<char>) -> bool {
    forall|i: int| 0 <= i < s.len() ==> is_digit(#[trigger] s[i])
}

/// The digits of a numeral, one optional leading plus sign allowed.
pub open spec fn numeral_body(s: Seq<char>) -> Seq<char> {
    if s.len() > 0 && s[0] == '+' {
        s.drop_first()
    } else {
        s
    }
}

/// Whether the field parses as a weight: nonempty digits after an optional
/// plus sign, with a value that fits the unsigned machine word.
pub open spec fn is_valid_weight(s: Seq<char>) -> bool {
    let b = numeral_body(s);
    b.len() > 0 && all_digits(b) && digits_val(b) <= usize::MAX
}

pub open spec fn weight_val(s: Seq<char>) -> int {
    digits_val(numeral_body(s))
}

/// How one line is read: trim, split on spaces, demand exactly three
/// fields, parse the third as a weight.
pub open spec fn parse_line(l: Seq<char>) -> Result<(Seq<char>, Seq<char>, usize), BuildError> {
    let f = split_fields(spec_trim(l));
    if f.len() != 3 {
        Err(BuildError::InvalidSyntax)
    } else if !is_valid_weight(f[2]) {
        Err(BuildError::InvalidWeight)
    } else {
        Ok((f[0], f[1], weight_val(f[2]) as usize))
    }
}

/// The graph a sequence of lines builds: each line inserts one undirected
/// edge, and the first failing line aborts the whole construction.
pub open spec fn lines_model(ls: Seq<Seq<char>>) -> Result<GraphModel, BuildError>
    decreases ls.len(),
{
    if ls.len() == 0 {
        Ok(Map::<Seq<char>, Map<Seq<char>, usize>>::empty())
    } else {
        match lines_model(ls.drop_last()) {
            Err(e) => Err(e),
            Ok(g) => match parse_line(ls.last()) {
                Err(e) => Err(e),
                Ok(t) => Ok(edge_insert(g, t.0, t.1, t.2)),
            },
        }
    }
}

/// The views of a sequence of owned strings.
pub open spec fn str_views(v: Seq<String>) -> Seq<Seq<char>> {
    v.map_values(|x: String| x@)
}

/// An error on line `i`, with all earlier lines clean, is the error of the
/// whole construction.
pub proof fn lemma_lines_model_err(ls: Seq<Seq<char>>, i: int, e: BuildError)
    requires
        0 <= i < ls.len(),
        lines_model(ls.take(i)) is Ok,
        parse_line(ls[i]) == Err::<(Seq<char>, Seq<char>, usize), BuildError>(e),
    ensures
        lines_model(ls) == Err::<GraphModel, BuildError>(e),
    decreases ls.len(),
{
    if i == ls.len() - 1 {
        assert(ls.take(i) =~= ls.drop_last());
    } else {
        assert(ls.drop_last().take(i) =~= ls.take(i));
        assert(ls.drop_last()[i] == ls[i]);
        lemma_lines_model_err(ls.drop_last(), i, e);
    }
}

/// Symmetry: a graph built from a text source records every edge in both
/// directions with the same weight.
pub proof fn lemma_lines_model_symmetric(ls: Seq<Seq<char>>, m: GraphModel)
    requires
        lines_model(ls) == Ok::<GraphModel, BuildError>(m),
    ensures
        symmetric(m),
    decreases ls.len(),
{
    if ls.len() == 0 {
        assert forall|a: Seq<char>, b: Seq<char>| #[trigger]
            crate::graph::has_edge(m, a, b) implies crate::graph::has_edge(m, b, a)
            && crate::graph::edge_weight(m, b, a) == crate::graph::edge_weight(m, a, b) by {}
    } else {
        let g0 = match lines_model(ls.drop_last()) {
            Ok(g) => g,
            Err(_) => Map::empty(),
        };
        lemma_lines_model_symmetric(ls.drop_last(), g0);
        let t = match parse_line(ls.last()) {
            Ok(t) => t,
            Err(_) => (Seq::empty(), Seq::empty(), 0),
        };
        crate::graph::lemma_edge_insert_symmetric(g0, t.0, t.1, t.2);
    }
}

/// The triples the lines parse to, meaningful when every line parses.
pub open spec fn parsed_triples(ls: Seq<Seq<char>>) -> Seq<(Seq<char>, Seq<char>, usize)> {
    ls.map_values(
        |l: Seq<char>|
            match parse_line(l) {
                Ok(t) => t,
                Err(_) => (Seq::<char>::empty(), Seq::<char>::empty(), 0usize),
            },
    )
}

/// A text source that builds successfully builds exactly the graph of its
/// parsed edge triples taken as a list.
pub proof fn lemma_lines_model_as_list(ls: Seq<Seq<char>>)
    requires
        lines_model(ls) is Ok,
    ensures
        forall|i: int| 0 <= i < ls.len() ==> parse_line(#[trigger] ls[i]) is Ok,
        lines_model(ls) == Ok::<GraphModel, BuildError>(list_model(parsed_triples(ls))),
    decreases ls.len(),
{
    if ls.len() == 0 {
        assert(parsed_triples(ls) =~= Seq::<(Seq<char>, Seq<char>, usize)>::empty());
    } else {
        lemma_lines_model_as_list(ls.drop_last());
        assert(parsed_triples(ls).drop_last() =~= parsed_triples(ls.drop_last()));
        assert forall|i: int| 0 <= i < ls.len() implies parse_line(#[trigger] ls[i]) is Ok by {
            if i < ls.len() - 1 {
                assert(ls.drop_last()[i] == ls[i]);
            }
        }
        assert(parsed_triples(ls).last() == match parse_line(ls.last()) {
            Ok(t) => t,
            Err(_) => (Seq::<char>::empty(), Seq::<char>::empty(), 0usize),
        });
    }
}

/// Last write wins for a text source: if line `i` inserts the unordered
/// pair {a, b} with weight `w` and no later line touches that pair, the
/// built graph records weight `w` in both directions.
pub proof fn lemma_lines_last_write_wins(
    ls: Seq<Seq<char>>,
    i: int,
    a: Seq<char>,
    b: Seq<char>,
    w: usize,
)
    requires
        lines_model(ls) is Ok,
        0 <= i < ls.len(),
        parse_line(ls[i]) == Ok::<(Seq<char>, Seq<char>, usize), BuildError>((a, b, w))
            || parse_line(ls[i]) == Ok::<(Seq<char>, Seq<char>, usize), BuildError>((b, a, w)),
        forall|j: int|
            i < j < ls.len() ==> !crate::graph::same_pair(#[trigger] parsed_triples(ls)[j], a, b),
    ensures
        lines_model(ls) == Ok::<GraphModel, BuildError>(list_model(parsed_triples(ls))),
        crate::graph::has_edge(list_model(parsed_triples(ls)), a, b),
        crate::graph::has_edge(list_model(parsed_triples(ls)), b, a),
        crate::graph::edge_weight(list_model(parsed_triples(ls)), a, b) == w,
        crate::graph::edge_weight(list_model(parsed_triples(ls)), b, a) == w,
{
    lemma_lines_model_as_list(ls);
    assert(parsed_triples(ls)[i] == (a, b, w) || parsed_triples(ls)[i] == (b, a, w));
    crate::graph::lemma_last_write_wins(parsed_triples(ls), i, a, b, w);
}

proof fn lemma_trim_drop_front(s: Seq<char>, i: int)
    requires
        0 <= i <= s.len(),
        forall|j: int| 0 <= j < i ==> is_line_ws(#[trigger] s[j]),
    ensures
        spec_trim(s) == spec_trim(s.subrange(i, s.len() as int)),
    decreases i,
{
    if i > 0 {
        assert(is_line_ws(s.first()));
        let s1 = s.drop_first();
        assert(s1 =~= s.subrange(1, s.len() as int));
        lemma_trim_drop_front(s1, i - 1);
        assert(s1.subrange(i - 1, s1.len() as int) =~= s.subrange(i, s.len() as int));
    } else {
        assert(s.subrange(0, s.len() as int) =~= s);
    }
}

proof fn lemma_trim_drop_back(s: Seq<char>, e: int)
    requires
        0 <= e <= s.len(),
        forall|j: int| e <= j < s.len() ==> is_line_ws(#[trigger] s[j]),
        s.len() == 0 || !is_line_ws(s.first()),
    ensures
        spec_trim(s) == spec_trim(s.subrange(0, e)),
    decreases s.len() - e,
{
    if e < s.len() {
        assert(is_line_ws(s.last()));
        let s1 = s.drop_last();
        lemma_trim_drop_back(s1, e);
        assert(s1.subrange(0, e) =~= s.subrange(0, e));
    } else {
        assert(s.subrange(0, s.len() as int) =~= s);
    }
}

proof fn lemma_trim_id(s: Seq<char>)
    requires
        s.len() == 0 || (!is_line_ws(s.first()) && !is_line_ws(s.last())),
    ensures
        spec_trim(s) == s,
{
}

fn is_ws_char(c: char) -> (r: bool)
    ensures
        r == is_line_ws(c),
{
    c == ' ' || c == '\t' || c == '\r' || c == '\n' || c == '\u{000B}' || c == '\u{000C}'
}

/// Removes the whitespace at both ends of a line.
fn trim_line<'a>(s: &'a str) -> (t: &'a str)
    ensures
        t@ == spec_trim(s@),
{
    let n = s.unicode_len();
    let mut start: usize = 0;
    while start < n && is_ws_char(s.get_char(start))
        invariant
            0 <= start <= n,
            n == s@.len(),
            forall|j: int| 0 <= j < start ==> is_line_ws(#[trigger] s@[j]),
        decreases n - start,
    {
        start += 1;
    }
    let mut end: usize = n;
    while end > start && is_ws_char(s.get_char(end - 1))
        invariant
            start <= end <= n,
            n == s@.len(),
            start < n ==> !is_line_ws(s@[start as int]),
            start < n ==> start < end,
            forall|j: int| end <= j < n ==> is_line_ws(#[trigger] s@[j]),
        decreases end,
    {
        end -= 1;
    }
    let t = s.substring_char(start, end);
    proof {
        lemma_trim_drop_front(s@, start as int);
        let s1 = s@.subrange(start as int, n as int);
        lemma_trim_drop_back(s1, end - start);
        assert(s1.subrange(0, end - start) =~= s@.subrange(start as int, end as int));
        lemma_trim_id(s@.subrange(start as int, end as int));
    }
    t
}

/// Splits a line into its space-separated fields.
fn split_line(s: &str) -> (fields: Vec<String>)
    ensures
        str_views(fields@) == split_fields(s@),
{
    let n = s.unicode_len();
    let mut fields: Vec<String> = Vec::new();
    let mut start: usize = 0;
    let mut i: usize = 0;
    proof {
        assert(str_views(fields@).push(s@.subrange(0, 0)) =~~= split_fields(s@.take(0)));
    }
    while i < n
        invariant
            0 <= start <= i <= n,
            n == s@.len(),
            str_views(fields@).push(s@.subrange(start as int, i as int)) == split_fields(
                s@.take(i as int),
            ),
        decreases n - i,
    {
        let c = s.get_char(i);
        let ghost old_fields = fields@;
        let ghost old_start = start;
        if c == ' ' {
            let f = s.substring_char(start, i).to_owned();
            fields.push(f);
            start = i + 1;
        }
        i += 1;
        proof {
            let t = s@.take(i as int);
            assert(t.drop_last() =~= s@.take(i - 1));
            assert(t.last() == s@[i - 1]);
            let init = split_fields(s@.take(i - 1));
            if c == ' ' {
                assert(str_views(fields@) =~~= str_views(old_fields).push(
                    s@.subrange(old_start as int, i - 1),
                ));
                assert(split_fields(t) == init.push(Seq::<char>::empty()));
                assert(str_views(fields@).push(s@.subrange(start as int, i as int)) =~~= split_fields(
                    t,
                ));
            } else {
                assert(init == str_views(old_fields).push(s@.subrange(old_start as int, i - 1)));
                assert(init.last().push(s@[i - 1]) =~= s@.subrange(start as int, i as int));
                assert(str_views(fields@).push(s@.subrange(start as int, i as int)) =~~= init.update(
                    init.len() - 1,
                    init.last().push(t.last()),
                ));
            }
        }
    }
    let f = s.substring_char(start, n).to_owned();
    fields.push(f);
    proof {
        assert(s@.take(n as int) =~= s@);
        assert(str_views(fields@) =~~= split_fields(s@));
    }
    fields
}

proof fn lemma_digits_val_nonneg(s: Seq<char>)
    requires
        all_digits(s),
    ensures
        digits_val(s) >= 0,
    decreases s.len(),
{
    if s.len() > 0 {
        assert(all_digits(s.drop_last())) by {
            assert(forall|i: int|
                0 <= i < s.len() - 1 ==> is_digit(#[trigger] s.drop_last()[i]) == is_digit(s[i]));
        }
        lemma_digits_val_nonneg(s.drop_last());
    }
}

proof fn lemma_digits_val_prefix(s: Seq<char>, i: int)
    requires
        all_digits(s),
        0 <= i <= s.len(),
    ensures
        digits_val(s.take(i)) <= digits_val(s),
    decreases s.len(),
{
    if i == s.len() {
        assert(s.take(i) =~= s);
    } else {
        assert(all_digits(s.drop_last())) by {
            assert(forall|j: int|
                0 <= j < s.len() - 1 ==> is_digit(#[trigger] s.drop_last()[j]) == is_digit(s[j]));
        }
        assert(s.drop_last().take(i) =~= s.take(i));
        lemma_digits_val_prefix(s.drop_last(), i);
        lemma_digits_val_nonneg(s.drop_last());
    }
}

/// Parses a field as a non-negative machine-word weight, as the text
/// format demands: digits after an optional plus sign, no other characters,
/// and no overflow.
fn parse_weight(s: &str) -> (r: Option<usize>)
    ensures
        match r {
            Some(w) => is_valid_weight(s@) && w == weight_val(s@),
            None => !is_valid_weight(s@),
        },
{
    let n = s.unicode_len();
    let mut i: usize = 0;
    if n > 0 && s.get_char(0) == '+' {
        i = 1;
    }
    let ghost start0 = i as int;
    proof {
        assert(numeral_body(s@) =~= s@.subrange(start0, n as int));
    }
    if i == n {
        return None;
    }
    let ghost body = s@.subrange(start0, n as int);
    let mut val: usize = 0;
    while i < n
        invariant
            start0 <= i <= n,
            0 <= start0,
            n == s@.len(),
            body == s@.subrange(start0, n as int),
            body == numeral_body(s@),
            all_digits(s@.subrange(start0, i as int)),
            val == digits_val(s@.subrange(start0, i as int)),
        decreases n - i,
    {
        let c = s.get_char(i);
        if c < '0' || c > '9' {
            proof {
                assert(body[i - start0] == c);
                assert(!is_digit(c));
            }
            return None;
        }
        let d: usize = (c as usize) - ('0' as usize);
        proof {
            assert(d == digit_val(c));
            assert(d <= 9);
        }
        if val > (usize::MAX - d) / 10 {
            proof {
                let pre = s@.subrange(start0, i + 1);
                assert(pre.drop_last() =~= s@.subrange(start0, i as int));
                assert(pre.last() == c);
                assert(digits_val(pre) == val * 10 + d);
                assert(val * 10 + d > usize::MAX) by {
                    assert(val >= (usize::MAX - d) / 10 + 1);
                    assert(((usize::MAX - d) / 10 + 1) * 10 + d > usize::MAX) by (nonlinear_arith)
                        requires
                            0 <= d <= 9,
                            d <= usize::MAX,
                    ;
                    assert(val * 10 >= ((usize::MAX - d) / 10 + 1) * 10) by (nonlinear_arith)
                        requires
                            val >= (usize::MAX - d) / 10 + 1,
                    ;
                }
                if is_valid_weight(s@) {
                    assert(all_digits(body));
                    assert(all_digits(pre)) by {
                        assert(forall|j: int|
                            0 <= j < pre.len() ==> #[trigger] pre[j] == body[j]);
                    }
                    assert(body.take(i + 1 - start0) =~= pre);
                    lemma_digits_val_prefix(body, i + 1 - start0);
                    assert(false);
                }
            }
            return None;
        }
        proof {
            assert(val * 10 + d <= usize::MAX) by {
                assert(val <= (usize::MAX - d) / 10);
                assert(((usize::MAX - d) / 10) * 10 + d <= usize::MAX) by (nonlinear_arith)
                    requires
                        0 <= d <= 9,
                        d <= usize::MAX,
                ;
                assert(val * 10 <= ((usize::MAX - d) / 10) * 10) by (nonlinear_arith)
                    requires
                        0 <= val <= (usize::MAX - d) / 10,
                ;
            }
            let pre = s@.subrange(start0, i + 1);
            assert(pre.drop_last() =~= s@.subrange(start0, i as int));
            assert(pre.last() == c);
            assert(forall|j: int|
                0 <= j < i + 1 - start0 ==> is_digit(#[trigger] pre[j]) == is_digit(
                    s@.subrange(start0, i as int).push(c)[j],
                ));
        }
        val = val * 10 + d;
        i += 1;
        proof {
            assert(all_digits(s@.subrange(start0, i as int))) by {
                let pre = s@.subrange(start0, i as int);
                assert(forall|j: int|
                    0 <= j < pre.len() - 1 ==> #[trigger] pre[j] == s@.subrange(
                        start0,
                        i - 1,
                    )[j]);
                assert(pre.last() == c);
            }
        }
    }
    proof {
        assert(s@.subrange(start0, i as int) =~= body);
    }
    Some(val)
}

/// Builds the graph from the lines of a text source: each line holds
/// `<vertexA> <vertexB> <weight>` separated by single spaces, and the first
/// malformed line aborts the construction with its error.
pub fn from_lines(lines: &Vec<String>) -> (r: Result<Graph, BuildError>)
    ensures
        match r {
            Ok(g) => g.wf() && lines_model(str_views(lines@)) == Ok::<GraphModel, BuildError>(g@),
            Err(e) => lines_model(str_views(lines@)) == Err::<GraphModel, BuildError>(e),
        },
{
    let mut g = Graph::new();
    let n = lines.len();
    let mut i: usize = 0;
    while i < n
        invariant
            i <= n,
            n == lines@.len(),
            g.rep_ok(),
            lines_model(str_views(lines@).take(i as int)) == Ok::<GraphModel, BuildError>(g@),
        decreases n - i,
    {
        let line = &lines[i];
        let trimmed = trim_line(line.as_str());
        let fields = split_line(trimmed);
        proof {
            assert(str_views(lines@)[i as int] == line@);
            assert(str_views(fields@) == split_fields(spec_trim(line@)));
            assert(str_views(lines@).take(i + 1).drop_last() =~= str_views(lines@).take(i as int));
            assert(str_views(lines@).take(i + 1).last() == line@);
        }
        if fields.len() != 3 {
            proof {
                assert(split_fields(spec_trim(line@)).len() == fields@.len());
                assert(parse_line(line@) == Err::<(Seq<char>, Seq<char>, usize), BuildError>(
                    BuildError::InvalidSyntax,
                ));
                lemma_lines_model_err(str_views(lines@), i as int, BuildError::InvalidSyntax);
            }
            return Err(BuildError::InvalidSyntax);
        }
        proof {
            assert(str_views(fields@)[0] == fields@[0]@);
            assert(str_views(fields@)[1] == fields@[1]@);
            assert(str_views(fields@)[2] == fields@[2]@);
        }
        let w_opt = parse_weight(fields[2].as_str());
        match w_opt {
            None => {
                proof {
                    assert(parse_line(line@) == Err::<(Seq<char>, Seq<char>, usize), BuildError>(
                        BuildError::InvalidWeight,
                    ));
                    lemma_lines_model_err(str_views(lines@), i as int, BuildError::InvalidWeight);
                }
                return Err(BuildError::InvalidWeight);
            },
            Some(w) => {
                proof {
                    assert(parse_line(line@) == Ok::<(Seq<char>, Seq<char>, usize), BuildError>(
                        (fields@[0]@, fields@[1]@, w),
                    ));
                }
                g.insert_edge(fields[0].as_str(), fields[1].as_str(), w);
            },
        }
        i += 1;
    }
    proof {
        assert(str_views(lines@).take(n as int) =~= str_views(lines@));
        lemma_lines_model_symmetric(str_views(lines@), g@);
    }
    Ok(g)
}

} // verus!
