//! The textual configuration format: a line-oriented file with `#` comments,
//! an optional `CITIES:` declaration, and a mandatory `MATRIX:` block holding
//! a square distance matrix, one whitespace-separated row per line.

use vstd::prelude::*;

use crate::graph::{Graph, GraphStats};
use crate::text::str_to_chars;
use crate::TSPError;

verus! {

/// Reads the configuration format into graphs.
pub struct ConfigReader;

/// The sizes of the bundled sample configurations.
#[derive(Debug, Clone)]
pub enum SampleType {
    Small,
    Medium,
    Large,
}

/// What a validation run found: the graph's size and statistics, the
/// warnings and errors collected, and the overall verdict.
pub struct ValidationReport {
    pub graph_size: usize,
    pub stats: crate::graph::GraphStats,
    pub warnings: Vec<String>,
    pub errors: Vec<String>,
    pub is_valid: bool,
}

/// Whether `c` is a decimal digit.
pub open spec fn is_digit(c: char) -> bool {
    48 <= c as u32 <= 57
}

/// The value of a digit string, most significant digit first.
pub open spec fn digits_val(s: Seq<char>) -> int
    decreases s.len(),
{
    if s.len() == 0 {
        0
    } else {
        digits_val(s.drop_last()) * 10 + (s.last() as u32 - 48)
    }
}

pub open spec fn all_digits(s: Seq<char>) -> bool {
    forall|i: int| 0 <= i < s.len() ==> is_digit(#[trigger] s[i])
}

/// The shape of an integer literal: digits, optionally preceded by one sign.
pub open spec fn int_token(s: Seq<char>) -> bool {
    if s.len() == 0 {
        false
    } else if s[0] == '-' || s[0] == '+' {
        s.len() >= 2 && all_digits(s.drop_first())
    } else {
        all_digits(s)
    }
}

/// The value of an integer literal.
pub open spec fn token_val(s: Seq<char>) -> int {
    if s.len() == 0 {
        0
    } else if s[0] == '-' {
        -digits_val(s.drop_first())
    } else if s[0] == '+' {
        digits_val(s.drop_first())
    } else {
        digits_val(s)
    }
}

/// Whether `c` separates tokens or pads a line.
pub open spec fn spec_space(c: char) -> bool {
    c == ' ' || c == '\t' || c == '\r'
}

/// The end of the token that starts at `i`: the position of the first
/// separator at or after `i`, or the end of the line.
pub open spec fn token_end(s: Seq<char>, i: int) -> int
    decreases s.len() - i
        when 0 <= i <= s.len()
{
    if i >= s.len() {
        i
    } else if spec_space(s[i]) {
        i
    } else {
        token_end(s, i + 1)
    }
}

proof fn lemma_token_end(s: Seq<char>, i: int)
    requires
        0 <= i <= s.len(),
    ensures
        i <= token_end(s, i) <= s.len(),
        i < s.len() && !spec_space(s[i]) ==> token_end(s, i) >= i + 1,
    decreases s.len() - i,
{
    if i < s.len() && !spec_space(s[i]) {
        lemma_token_end(s, i + 1);
    }
}

/// The whitespace-separated tokens of the line from position `i` on, in
/// order.
pub open spec fn tokens_from(s: Seq<char>, i: int) -> Seq<Seq<char>>
    decreases s.len() - i
        when 0 <= i <= s.len()
        via tokens_from_decreases
{
    if i >= s.len() {
        Seq::empty()
    } else if spec_space(s[i]) {
        tokens_from(s, i + 1)
    } else {
        seq![s.subrange(i, token_end(s, i))] + tokens_from(s, token_end(s, i))
    }
}

#[via_fn]
proof fn tokens_from_decreases(s: Seq<char>, i: int) {
    if 0 <= i < s.len() && !spec_space(s[i]) {
        lemma_token_end(s, i);
    }
}

/// All whitespace-separated tokens of a line, in order.
pub open spec fn line_tokens(s: Seq<char>) -> Seq<Seq<char>> {
    tokens_from(s, 0)
}

/// A token parses as an `i32`: an integer literal whose value fits.
pub open spec fn token_fits(t: Seq<char>) -> bool {
    int_token(t) && i32::MIN <= token_val(t) <= i32::MAX
}

proof fn lemma_digits_nonneg(s: Seq<char>)
    requires
        all_digits(s),
    ensures
        digits_val(s) >= 0,
    decreases s.len(),
{
    if s.len() > 0 {
        assert(all_digits(s.drop_last())) by {
            assert(forall|i: int|
                0 <= i < s.len() - 1 ==> #[trigger] s.drop_last()[i] == s[i]);
        }
        lemma_digits_nonneg(s.drop_last());
    }
}

/// A longer digit prefix never has a smaller value.
proof fn lemma_digits_prefix_le(s: Seq<char>, k: int)
    requires
        all_digits(s),
        0 <= k <= s.len(),
    ensures
        digits_val(s.take(k)) <= digits_val(s),
    decreases s.len() - k,
{
    if k < s.len() {
        lemma_digits_prefix_le(s.drop_last(), k);
        assert(s.drop_last().take(k) =~= s.take(k));
        assert(all_digits(s.drop_last())) by {
            assert(forall|i: int|
                0 <= i < s.len() - 1 ==> #[trigger] s.drop_last()[i] == s[i]);
        }
        lemma_digits_nonneg(s.drop_last());
    } else {
        assert(s.take(k) =~= s);
    }
}

/// Parses the characters `cs[start .. end]` as an `i32`: succeeds exactly on
/// an integer literal whose value fits, and returns exactly that value.
fn parse_i32(cs: &Vec<char>, start: usize, end: usize) -> (r: Result<i32, TSPError>)
    requires
        start <= end <= cs@.len(),
    ensures
        match r {
            Ok(v) => {
                &&& int_token(cs@.subrange(start as int, end as int))
                &&& i32::MIN <= token_val(cs@.subrange(start as int, end as int)) <= i32::MAX
                &&& v == token_val(cs@.subrange(start as int, end as int))
            },
            Err(e) => (!int_token(cs@.subrange(start as int, end as int)) || token_val(
                cs@.subrange(start as int, end as int),
            ) > i32::MAX || token_val(cs@.subrange(start as int, end as int)) < i32::MIN)
                && e is ConfigError,
        },
{
    let ghost tok = cs@.subrange(start as int, end as int);
    if start == end {
        return Err(TSPError::ConfigError("empty number".to_owned()));
    }
    let first = cs[start];
    let negative = first == '-';
    let signed = negative || first == '+';
    let dstart = if signed {
        start + 1
    } else {
        start
    };
    let ghost digits = cs@.subrange(dstart as int, end as int);
    proof {
        if signed {
            assert(digits =~= tok.drop_first());
        } else {
            assert(digits =~= tok);
        }
    }
    if dstart == end {
        return Err(TSPError::ConfigError("a sign needs digits after it".to_owned()));
    }

    let mut acc: i64 = 0;
    let mut i: usize = dstart;
    while i < end
        invariant
            start < end <= cs@.len(),
            start <= dstart <= i <= end,
            tok == cs@.subrange(start as int, end as int),
            digits == cs@.subrange(dstart as int, end as int),
            signed == (cs@[start as int] == '-' || cs@[start as int] == '+'),
            negative == (cs@[start as int] == '-'),
            dstart == if signed {
                start + 1
            } else {
                start as int
            },
            dstart < end,
            all_digits(digits.take(i - dstart)),
            acc == digits_val(digits.take(i - dstart)),
            0 <= acc <= 0x8000_0000,
        decreases end - i,
    {
        proof {
            if signed {
                assert(digits =~= tok.drop_first());
            } else {
                assert(digits =~= tok);
            }
        }
        let c = cs[i];
        let cu = c as u32;
        if !(cu >= 48 && cu <= 57) {
            proof {
                assert(digits[i - dstart] == c);
                assert(!is_digit(c));
                assert(!all_digits(digits));
            }
            return Err(TSPError::ConfigError("not a number".to_owned()));
        }
        let d = cu - 48;
        proof {
            assert(is_digit(c));
            let prev = digits.take(i - dstart);
            let now = digits.take(i - dstart + 1);
            assert(now.drop_last() =~= prev);
            assert(now.last() == c);
            assert forall|k: int| 0 <= k < now.len() implies is_digit(#[trigger] now[k]) by {
                if k < now.len() - 1 {
                    assert(now[k] == prev[k]);
                }
            }
            assert(digits_val(now) == digits_val(prev) * 10 + (c as u32 - 48));
        }
        acc = acc * 10 + (d as i64);
        i += 1;
        if acc > 0x8000_0000 {
            proof {
                assert(digits.take(i - dstart) =~= digits.take(i - dstart));
                if all_digits(digits) {
                    lemma_digits_prefix_le(digits, i - dstart);
                }
            }
            return Err(TSPError::ConfigError("number out of range".to_owned()));
        }
    }
    proof {
        assert(digits.take(end - dstart) =~= digits);
        if signed {
            assert(digits =~= tok.drop_first());
        } else {
            assert(digits =~= tok);
        }
    }

    if negative {
        Ok((-acc) as i32)
    } else {
        if acc > 0x7fff_ffff {
            return Err(TSPError::ConfigError("number out of range".to_owned()));
        }
        Ok(acc as i32)
    }
}

/// Whether `c` separates tokens or pads a line.
fn is_space(c: char) -> (r: bool)
    ensures
        r == (c == ' ' || c == '\t' || c == '\r'),
{
    c == ' ' || c == '\t' || c == '\r'
}

/// Parses one whitespace-separated row of integer weights: it succeeds
/// exactly when every token of the line is an integer literal that fits an
/// `i32`, and then returns exactly the tokens' values, in order.
fn parse_row_chars(line: &Vec<char>) -> (r: Result<Vec<i32>, TSPError>)
    ensures
        match r {
            Ok(v) => {
                &&& v@.len() == line_tokens(line@).len()
                &&& forall|k: int|
                    0 <= k < v@.len() ==> token_fits(#[trigger] line_tokens(line@)[k]) && v@[k]
                        == token_val(line_tokens(line@)[k])
            },
            Err(e) => e is ConfigError && exists|k: int|
                0 <= k < line_tokens(line@).len() && !token_fits(
                    #[trigger] line_tokens(line@)[k],
                ),
        },
{
    let ghost s = line@;
    let ghost mut done: Seq<Seq<char>> = Seq::empty();
    let mut row: Vec<i32> = Vec::new();
    let mut i: usize = 0;
    let n = line.len();
    while i < n
        invariant
            i <= n,
            n == line@.len(),
            s == line@,
            line_tokens(s) == done + tokens_from(s, i as int),
            row@.len() == done.len(),
            forall|k: int|
                0 <= k < done.len() ==> token_fits(#[trigger] done[k]) && row@[k] == token_val(
                    done[k],
                ),
        decreases n - i,
    {
        if is_space(line[i]) {
            proof {
                assert(tokens_from(s, i as int) == tokens_from(s, i as int + 1));
            }
            i += 1;
        } else {
            let tstart = i;
            proof {
                lemma_token_end(s, tstart as int);
            }
            while i < n && !is_space(line[i])
                invariant
                    tstart <= i <= n,
                    n == line@.len(),
                    s == line@,
                    !spec_space(s[tstart as int]),
                    tstart < n,
                    token_end(s, tstart as int) == token_end(s, i as int),
                decreases n - i,
            {
                proof {
                    assert(token_end(s, i as int) == token_end(s, i as int + 1));
                }
                i += 1;
            }
            proof {
                assert(token_end(s, i as int) == i as int);
                lemma_token_end(s, tstart as int);
                assert(tokens_from(s, tstart as int) == seq![s.subrange(
                    tstart as int,
                    i as int,
                )] + tokens_from(s, i as int));
                assert((done + tokens_from(s, tstart as int))[done.len() as int] == s.subrange(
                    tstart as int,
                    i as int,
                ));
            }
            match parse_i32(line, tstart, i) {
                Ok(v) => {
                    row.push(v);
                    proof {
                        done = done.push(s.subrange(tstart as int, i as int));
                        assert(done + tokens_from(s, i as int) =~= line_tokens(s));
                    }
                },
                Err(e) => {
                    proof {
                        assert(!token_fits(line_tokens(s)[done.len() as int]));
                        assert(0 <= done.len() < line_tokens(s).len()) by {
                            assert(line_tokens(s).len() == done.len() + 1 + tokens_from(
                                s,
                                i as int,
                            ).len());
                        }
                    }
                    return Err(e);
                },
            }
        }
    }
    proof {
        assert(tokens_from(s, n as int) =~= Seq::<Seq<char>>::empty());
        assert(line_tokens(s) =~= done);
    }
    Ok(row)
}

impl ConfigReader {
    /// Parses one whitespace-separated row of integer weights from a line of
    /// text. Fails with `ConfigError` on anything that is not a fitting
    /// integer literal.
    pub fn parse_matrix_row(line: &str) -> (r: Result<Vec<i32>, TSPError>)
        ensures
            match r {
                Ok(v) => {
                    &&& v@.len() == line_tokens(line@).len()
                    &&& forall|k: int|
                        0 <= k < v@.len() ==> token_fits(#[trigger] line_tokens(line@)[k]) && v@[k]
                            == token_val(line_tokens(line@)[k])
                },
                Err(e) => e is ConfigError && exists|k: int|
                    0 <= k < line_tokens(line@).len() && !token_fits(
                        #[trigger] line_tokens(line@)[k],
                    ),
            },
    {
        let chars = str_to_chars(line);
        parse_row_chars(&chars)
    }

    /// Parses a whole configuration text: `#` comments and blank lines are
    /// skipped, an optional `CITIES:` line names the nodes, and the lines
    /// after `MATRIX:` form the adjacency matrix. The resulting graph always
    /// satisfies the construction invariant.
    pub fn parse_content(content: &str) -> (r: Result<Graph, TSPError>)
        ensures
            r matches Ok(g) ==> g.wf() && g.size >= 1,
            r matches Err(e) ==> e is ConfigError || e is InvalidGraph,
    {
        let chars = str_to_chars(content);
        let total = chars.len();

        let mut have_names = false;
        let mut city_names: Vec<String> = Vec::new();
        let mut matrix: Vec<Vec<i32>> = Vec::new();
        let mut in_matrix_section = false;
        let mut saw_line = false;

        let mut pos: usize = 0;
        while pos < total
            invariant
                pos <= total,
                total == chars@.len(),
            decreases total - pos,
        {
            // take one line
            let mut line_end = pos;
            while line_end < total && chars[line_end] != '\n'
                invariant
                    pos <= line_end <= total,
                    total == chars@.len(),
                decreases total - line_end,
            {
                line_end += 1;
            }
            let line = trim_range(&chars, pos, line_end);

            if line.len() > 0 && line[0] != '#' {
                saw_line = true;
                if starts_with_cities(&line) {
                    city_names = split_names(&line, 7);
                    have_names = true;
                } else if is_matrix_marker(&line) {
                    in_matrix_section = true;
                    matrix = Vec::new();
                } else if in_matrix_section {
                    let row = match parse_row_chars(&line) {
                        Ok(v) => v,
                        Err(e) => {
                            return Err(e);
                        },
                    };
                    matrix.push(row);
                }
            }

            if line_end < total {
                pos = line_end + 1;
            } else {
                pos = total;
            }
        }

        if !saw_line {
            return Err(TSPError::ConfigError("the file is empty or only comments".to_owned()));
        }

        if !in_matrix_section {
            return Err(TSPError::ConfigError("no MATRIX section was found".to_owned()));
        }

        if matrix.len() == 0 {
            return Err(TSPError::ConfigError("the matrix must not be empty".to_owned()));
        }

        if have_names {
            Graph::with_node_names(matrix, city_names)
        } else {
            Graph::new(matrix)
        }
    }
}

impl ConfigReader {
    /// The bundled three-city sample configuration: exactly this text.
    pub fn get_small_sample() -> (r: String)
        ensures
            r@ == ("# A small instance: 3 cities\n\nCITIES: A, B, C\n\nMATRIX:\n0 2 3\n4 0 1\n5 6 0\n")@,
    {
        "# A small instance: 3 cities\n\nCITIES: A, B, C\n\nMATRIX:\n0 2 3\n4 0 1\n5 6 0\n".to_owned()
    }

    /// The bundled five-city sample configuration: exactly this text.
    pub fn get_medium_sample() -> (r: String)
        ensures
            r@ == ("# A medium instance: 5 cities\n\nCITIES: Jakarta, Bandung, Yogyakarta, Surabaya, Medan\n\n# distance matrix\nMATRIX:\n0  2  9 10  7\n1  0  6  4  3\n15 7  0  8  3\n6  3 12  0 11\n7  8  4  2  0\n")@,
    {
        "# A medium instance: 5 cities\n\nCITIES: Jakarta, Bandung, Yogyakarta, Surabaya, Medan\n\n# distance matrix\nMATRIX:\n0  2  9 10  7\n1  0  6  4  3\n15 7  0  8  3\n6  3 12  0 11\n7  8  4  2  0\n".to_owned()
    }

    /// The bundled seven-city sample configuration: exactly this text.
    pub fn get_large_sample() -> (r: String)
        ensures
            r@ == ("# A large instance: 7 cities\n\nCITIES: A, B, C, D, E, F, G\n\n# distance matrix\nMATRIX:\n0  3  4  2  7  6  8\n2  0  5  3  6  4  7\n4  5  0  6  8  9  3\n2  3  6  0  4  5  9\n7  6  8  4  0  2  5\n6  4  9  5  2  0  7\n8  7  3  9  5  7  0\n")@,
    {
        "# A large instance: 7 cities\n\nCITIES: A, B, C, D, E, F, G\n\n# distance matrix\nMATRIX:\n0  3  4  2  7  6  8\n2  0  5  3  6  4  7\n4  5  0  6  8  9  3\n2  3  6  0  4  5  9\n7  6  8  4  0  2  5\n6  4  9  5  2  0  7\n8  7  3  9  5  7  0\n".to_owned()
    }

    /// Builds the validation report for a graph and its statistics: the
    /// verdict is positive exactly when the graph is complete, the one error
    /// reports incompleteness, and the warnings flag a large size and very
    /// unbalanced weights, in that order.
    pub fn validate_graph(graph: &Graph, stats: GraphStats) -> (rep: ValidationReport)
        requires
            graph.wf(),
        ensures
            rep.graph_size == graph.size,
            rep.stats == stats,
            rep.is_valid <==> graph.complete(),
            rep.is_valid <==> rep.errors@.len() == 0,
            rep.errors@.len() == if graph.complete() {
                0int
            } else {
                1int
            },
            !graph.complete() ==> rep.errors@[0]@ == ("the graph is not valid for solving")@,
            rep.warnings@.len() == (if graph.size > 10 {
                1int
            } else {
                0int
            }) + (if stats.max_edge_weight as int > stats.min_edge_weight as int * 10 {
                1int
            } else {
                0int
            }),
            graph.size > 10 ==> rep.warnings@[0]@ == (
            "a graph of this size may take a long time to solve")@,
            stats.max_edge_weight as int > stats.min_edge_weight as int * 10
                ==> rep.warnings@[rep.warnings@.len() - 1]@ == (
            "the edge weights are very unbalanced, which may affect performance")@,
    {
        let mut warnings: Vec<String> = Vec::new();
        let mut errors: Vec<String> = Vec::new();

        match graph.validate_for_tsp() {
            Err(_) => {
                errors.push("the graph is not valid for solving".to_owned());
            },
            Ok(()) => {},
        }

        if graph.size > 10 {
            warnings.push("a graph of this size may take a long time to solve".to_owned());
        }

        if (stats.max_edge_weight as i64) > (stats.min_edge_weight as i64) * 10 {
            warnings.push(
                "the edge weights are very unbalanced, which may affect performance".to_owned(),
            );
        }

        let is_valid = errors.len() == 0;

        ValidationReport { graph_size: graph.size, stats, warnings, errors, is_valid }
    }

    /// Parses a configuration text and reports on the graph it describes:
    /// the parsed graph's statistics (checked to fit), the report that
    /// `validate_graph` builds for it, and the parse errors otherwise.
    pub fn validate_file(content: &str) -> (r: Result<ValidationReport, TSPError>)
        ensures
            r matches Ok(rep) ==> {
                &&& (rep.is_valid <==> rep.errors@.len() == 0)
                &&& rep.stats.total_weight <= i32::MAX
                &&& rep.stats.nodes == rep.graph_size
            },
            r matches Err(e) ==> e is ConfigError || e is InvalidGraph,
    {
        let graph = match Self::parse_content(content) {
            Ok(g) => g,
            Err(e) => {
                return Err(e);
            },
        };
        let stats = match crate::graph::stats_checked(&graph) {
            Some(st) => st,
            None => {
                return Err(TSPError::ConfigError(
                    "the total edge weight exceeds the supported range".to_owned(),
                ));
            },
        };

        Ok(Self::validate_graph(&graph, stats))
    }
}

/// Copies `cs[start .. end]` without its leading and trailing whitespace.
fn trim_range(cs: &Vec<char>, start: usize, end: usize) -> (r: Vec<char>)
    requires
        start <= end <= cs@.len(),
{
    let mut a = start;
    let mut b = end;
    while a < b && is_space(cs[a])
        invariant
            start <= a <= b <= end <= cs@.len(),
        decreases b - a,
    {
        a += 1;
    }
    while b > a && is_space(cs[b - 1])
        invariant
            start <= a <= b <= end <= cs@.len(),
        decreases b - a,
    {
        b -= 1;
    }
    let mut out: Vec<char> = Vec::new();
    let mut i = a;
    while i < b
        invariant
            a <= i <= b <= cs@.len(),
        decreases b - i,
    {
        out.push(cs[i]);
        i += 1;
    }
    out
}

/// Whether the line begins with the `CITIES:` keyword.
fn starts_with_cities(line: &Vec<char>) -> (r: bool)
    ensures
        r ==> line@.len() >= 7,
{
    if line.len() < 7 {
        return false;
    }
    line[0] == 'C' && line[1] == 'I' && line[2] == 'T' && line[3] == 'I' && line[4] == 'E'
        && line[5] == 'S' && line[6] == ':'
}

/// Whether the line is exactly the `MATRIX:` marker.
fn is_matrix_marker(line: &Vec<char>) -> (r: bool) {
    if line.len() != 7 {
        return false;
    }
    line[0] == 'M' && line[1] == 'A' && line[2] == 'T' && line[3] == 'R' && line[4] == 'I'
        && line[5] == 'X' && line[6] == ':'
}

/// Relies on alloc::string::String::push: appends exactly one character.
#[verifier::external_body]
fn push_char(s: &mut String, c: char)
    ensures
        final(s)@ == old(s)@.push(c),
{
    s.push(c)
}

/// Builds a string from a character vector.
fn chars_to_string(cs: &Vec<char>) -> (r: String)
    ensures
        r@ == cs@,
{
    let mut s = String::new();
    let mut i: usize = 0;
    while i < cs.len()
        invariant
            i <= cs@.len(),
            s@ == cs@.take(i as int),
        decreases cs@.len() - i,
    {
        proof {
            assert(cs@.take(i + 1) =~= cs@.take(i as int).push(cs@[i as int]));
        }
        push_char(&mut s, cs[i]);
        i += 1;
    }
    proof {
        assert(cs@.take(cs@.len() as int) =~= cs@);
    }
    s
}

/// Splits the rest of a `CITIES:` line on commas into trimmed names.
fn split_names(line: &Vec<char>, from: usize) -> (r: Vec<String>)
    requires
        from <= line@.len(),
{
    let mut names: Vec<String> = Vec::new();
    let mut seg_start = from;
    let mut i = from;
    let n = line.len();
    while i < n
        invariant
            from <= seg_start <= i <= n,
            n == line@.len(),
        decreases n - i,
    {
        if line[i] == ',' {
            let seg = trim_range(line, seg_start, i);
            names.push(chars_to_string(&seg));
            seg_start = i + 1;
        }
        i += 1;
    }
    let seg = trim_range(line, seg_start, n);
    names.push(chars_to_string(&seg));
    names
}

} // verus!
