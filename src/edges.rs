use crate::graph::NodeId;
use crate::stats::GraphError;
use vstd::prelude::*;

verus! {

/// A Unicode whitespace character (the `White_Space` property).
pub open spec fn is_space(c: char) -> bool {
    ||| ('\t' <= c && c <= '\r')
    ||| c == ' '
    ||| c == '\u{85}'
    ||| c == '\u{a0}'
    ||| c == '\u{1680}'
    ||| ('\u{2000}' <= c && c <= '\u{200a}')
    ||| c == '\u{2028}'
    ||| c == '\u{2029}'
    ||| c == '\u{202f}'
    ||| c == '\u{205f}'
    ||| c == '\u{3000}'
}

/// Whether `c` is a Unicode whitespace character.
fn is_space_char(c: char) -> (r: bool)
    ensures
        r == is_space(c),
{
    ('\t' <= c && c <= '\r') || c == ' ' || c == '\u{85}' || c == '\u{a0}' || c == '\u{1680}'
        || ('\u{2000}' <= c && c <= '\u{200a}') || c == '\u{2028}' || c == '\u{2029}'
        || c == '\u{202f}' || c == '\u{205f}' || c == '\u{3000}'
}

/// The number of leading characters of `s` before the first whitespace.
pub open spec fn word_len(s: Seq<char>) -> nat
    decreases s.len(),
{
    if s.len() == 0 || is_space(s[0]) {
        0
    } else {
        1 + word_len(s.drop_first())
    }
}

/// The maximal runs of non-whitespace characters of `s`, in order.
pub open spec fn tokens(s: Seq<char>) -> Seq<Seq<char>>
    decreases s.len() via tokens_decreases
{
    if s.len() == 0 {
        seq![]
    } else if is_space(s[0]) {
        tokens(s.drop_first())
    } else {
        let w = word_len(s);
        seq![s.take(w as int)] + tokens(s.skip(w as int))
    }
}

/// A decimal digit.
pub open spec fn is_digit(c: char) -> bool {
    '0' <= c && c <= '9'
}

/// The value of a sequence of decimal digits.
pub open spec fn digits_value(s: Seq<char>) -> nat
    decreases s.len(),
{
    if s.len() == 0 {
        0
    } else {
        digits_value(s.drop_last()) * 10 + (s.last() as nat - 48) as nat
    }
}

/// The digits of a numeral: the token without one leading `+`, if it has one.
pub open spec fn numeral_digits(t: Seq<char>) -> Seq<char> {
    if t.len() > 0 && t[0] == '+' {
        t.drop_first()
    } else {
        t
    }
}

/// `t` is a non-negative decimal numeral whose value fits a `usize`.
pub open spec fn is_node_numeral(t: Seq<char>) -> bool {
    let d = numeral_digits(t);
    &&& d.len() > 0
    &&& forall|i: int| 0 <= i < d.len() ==> is_digit(#[trigger] d[i])
    &&& digits_value(d) <= usize::MAX
}

#[via_fn]
proof fn tokens_decreases(s: Seq<char>) {
    if s.len() > 0 && !is_space(s[0]) {
        lemma_word_len_bound(s);
        assert(word_len(s) == 1 + word_len(s.drop_first()));
    }
}

proof fn lemma_word_len_bound(s: Seq<char>)
    ensures
        word_len(s) <= s.len(),
        forall|i: int| 0 <= i < word_len(s) ==> !is_space(#[trigger] s[i]),
        word_len(s) < s.len() ==> is_space(s[word_len(s) as int]),
    decreases s.len(),
{
    if s.len() > 0 && !is_space(s[0]) {
        lemma_word_len_bound(s.drop_first());
        assert forall|i: int| 0 <= i < word_len(s) implies !is_space(#[trigger] s[i]) by {
            if i > 0 {
                assert(s[i] == s.drop_first()[i - 1]);
            }
        }
    }
}

proof fn lemma_word_len_skip(s: Seq<char>, j: int)
    requires
        0 <= j <= s.len(),
        forall|i: int| 0 <= i < j ==> !is_space(#[trigger] s[i]),
    ensures
        word_len(s) == j + word_len(s.skip(j)),
    decreases j,
{
    if j > 0 {
        lemma_word_len_skip(s.drop_first(), j - 1);
        assert(s.drop_first().skip(j - 1) == s.skip(j));
    } else {
        assert(s.skip(0) == s);
    }
}

proof fn lemma_digits_prefix(s: Seq<char>, i: int)
    requires
        0 <= i <= s.len(),
    ensures
        digits_value(s.take(i)) <= digits_value(s),
    decreases s.len() - i,
{
    if i < s.len() {
        lemma_digits_prefix(s, i + 1);
        assert(s.take(i + 1).drop_last() == s.take(i));
    } else {
        assert(s.take(i) == s);
    }
}

/// Splits `line` into its whitespace-separated tokens.
fn split_tokens(line: &[char]) -> (r: Vec<Vec<char>>)
    ensures
        r@.len() == tokens(line@).len(),
        forall|i: int| 0 <= i < r@.len() ==> (#[trigger] r@[i])@ == tokens(line@)[i],
{
    let ghost s = line@;
    let mut out: Vec<Vec<char>> = Vec::new();
    let ghost mut done: Seq<Seq<char>> = seq![];
    let mut i: usize = 0;
    assert(s.skip(0) == s);
    assert(done + tokens(s) == tokens(s));
    while i < line.len()
        invariant
            s == line@,
            i <= s.len(),
            tokens(s) == done + tokens(s.skip(i as int)),
            out@.len() == done.len(),
            forall|k: int| 0 <= k < out@.len() ==> (#[trigger] out@[k])@ == done[k],
        decreases s.len() - i,
    {
        let ghost rest = s.skip(i as int);
        if is_space_char(line[i]) {
            assert(rest.drop_first() == s.skip(i as int + 1));
            i += 1;
        } else {
            let mut word: Vec<char> = Vec::new();
            let mut j: usize = i;
            while j < line.len() && !is_space_char(line[j])
                invariant
                    s == line@,
                    i <= j <= s.len(),
                    word@ == s.subrange(i as int, j as int),
                    forall|k: int| i <= k < j ==> !is_space(#[trigger] s[k]),
                decreases s.len() - j,
            {
                word.push(line[j]);
                j += 1;
            }
            proof {
                let w = (j - i) as int;
                assert forall|k: int| 0 <= k < w implies !is_space(#[trigger] rest[k]) by {
                    assert(rest[k] == s[i + k]);
                }
                lemma_word_len_skip(rest, w);
                assert(rest.skip(w) == s.skip(j as int));
                if j < s.len() {
                    assert(s.skip(j as int)[0] == s[j as int]);
                }
                assert(word_len(s.skip(j as int)) == 0);
                assert(word_len(rest) == w);
                assert(rest.take(w) == word@);
                done = done.push(word@);
                assert(tokens(s) == done + tokens(s.skip(j as int)));
            }
            out.push(word);
            i = j;
        }
    }
    proof {
        assert(tokens(s.skip(i as int)) == Seq::<Seq<char>>::empty());
        assert(done + Seq::<Seq<char>>::empty() == done);
    }
    out
}

/// The value of the numeral `t`, or `None` when `t` is not a non-negative
/// decimal numeral (one optional leading `+`) whose value fits a `usize`.
fn parse_node(t: &Vec<char>) -> (r: Option<NodeId>)
    ensures
        r is Some <==> is_node_numeral(t@),
        r matches Some(v) ==> v == digits_value(numeral_digits(t@)),
{
    let ghost d = numeral_digits(t@);
    let start: usize = if t.len() > 0 && t[0] == '+' {
        1
    } else {
        0
    };
    assert(d == t@.skip(start as int));
    if start >= t.len() {
        assert(d.len() == 0);
        return None;
    }
    let mut value: usize = 0;
    let mut i: usize = start;
    while i < t.len()
        invariant
            start <= i <= t@.len(),
            d == t@.skip(start as int),
            d == numeral_digits(t@),
            forall|k: int| 0 <= k < i - start ==> is_digit(#[trigger] d[k]),
            value == digits_value(d.take(i - start)),
        decreases t@.len() - i,
    {
        let b = t[i];
        let ghost k = i - start;
        assert(d[k] == b);
        if b < '0' || b > '9' {
            assert(!is_digit(d[k]));
            return None;
        }
        assert(d.take(k + 1).drop_last() == d.take(k));
        assert(d.take(k + 1).last() == b);
        let next = match value.checked_mul(10) {
            Some(x) => x.checked_add((b as u32 - 48) as usize),
            None => None,
        };
        match next {
            Some(x) => {
                value = x;
            },
            None => {
                proof {
                    assert(digits_value(d.take(k + 1)) == value * 10 + (b as nat - 48) as nat);
                    lemma_digits_prefix(d, k + 1);
                }
                return None;
            },
        }
        i += 1;
    }
    assert(d.take(t@.len() - start) == d);
    Some(value)
}

/// What one line of an edge list holds: `Ok(None)` for a line with other
/// than two tokens, which is skipped; the edge between the values of two
/// numerals; `MalformedInput` for two tokens that are not both numerals.
pub open spec fn line_edge(line: Seq<char>) -> Result<Option<(NodeId, NodeId)>, GraphError> {
    let ts = tokens(line);
    if ts.len() != 2 {
        Ok(None)
    } else if is_node_numeral(ts[0]) && is_node_numeral(ts[1]) {
        Ok(
            Some(
                (
                    digits_value(numeral_digits(ts[0])) as NodeId,
                    digits_value(numeral_digits(ts[1])) as NodeId,
                ),
            ),
        )
    } else {
        Err(GraphError::MalformedInput)
    }
}

/// The number of leading characters of `s` before the first line feed.
pub open spec fn line_len(s: Seq<char>) -> nat
    decreases s.len(),
{
    if s.len() == 0 || s[0] == '\n' {
        0
    } else {
        1 + line_len(s.drop_first())
    }
}

/// The lines of `s`: the runs of characters between line feeds, where a final
/// line feed ends the last line rather than starting an empty one.
pub open spec fn lines(s: Seq<char>) -> Seq<Seq<char>>
    decreases s.len() via lines_decreases
{
    if s.len() == 0 {
        seq![]
    } else {
        let w = line_len(s);
        if w < s.len() {
            seq![s.take(w as int)] + lines(s.skip(w as int + 1))
        } else {
            seq![s]
        }
    }
}

/// The edges of a sequence of lines, in order, or the first error of a line.
pub open spec fn edges_of_lines(ls: Seq<Seq<char>>) -> Result<Seq<(NodeId, NodeId)>, GraphError>
    decreases ls.len(),
{
    if ls.len() == 0 {
        Ok(seq![])
    } else {
        match (edges_of_lines(ls.drop_last()), line_edge(ls.last())) {
            (Err(e), _) => Err(e),
            (Ok(_), Err(e)) => Err(e),
            (Ok(es), Ok(None)) => Ok(es),
            (Ok(es), Ok(Some(e))) => Ok(es.push(e)),
        }
    }
}

proof fn lemma_line_len_bound(s: Seq<char>)
    ensures
        line_len(s) <= s.len(),
    decreases s.len(),
{
    if s.len() > 0 && s[0] != '\n' {
        lemma_line_len_bound(s.drop_first());
    }
}

#[via_fn]
proof fn lines_decreases(s: Seq<char>) {
    lemma_line_len_bound(s);
}

proof fn lemma_line_len_skip(s: Seq<char>, j: int)
    requires
        0 <= j <= s.len(),
        forall|i: int| 0 <= i < j ==> #[trigger] s[i] != '\n',
    ensures
        line_len(s) == j + line_len(s.skip(j)),
    decreases j,
{
    if j > 0 {
        lemma_line_len_skip(s.drop_first(), j - 1);
        assert(s.drop_first().skip(j - 1) == s.skip(j));
    } else {
        assert(s.skip(0) == s);
    }
}

proof fn lemma_error_persists(ls: Seq<Seq<char>>, k: int)
    requires
        0 <= k <= ls.len(),
        edges_of_lines(ls.take(k)) is Err,
    ensures
        edges_of_lines(ls) == edges_of_lines(ls.take(k)),
    decreases ls.len() - k,
{
    if k < ls.len() {
        assert(ls.take(k + 1).drop_last() == ls.take(k));
        lemma_error_persists(ls, k + 1);
    } else {
        assert(ls.take(k) == ls);
    }
}

/// Reads one line of an edge list.
pub fn parse_edge_line(line: &[char]) -> (r: Result<Option<(NodeId, NodeId)>, GraphError>)
    ensures
        r == line_edge(line@),
{
    let parts = split_tokens(line);
    if parts.len() != 2 {
        return Ok(None);
    }
    let from = parse_node(&parts[0]);
    let to = parse_node(&parts[1]);
    match (from, to) {
        (Some(u), Some(v)) => Ok(Some((u, v))),
        _ => Err(GraphError::MalformedInput),
    }
}

/// Reads an edge list, one edge per line: the edges of its lines in order,
/// or `MalformedInput` when a line of two tokens is not two numerals.
pub fn parse_edge_list(text: &[char]) -> (r: Result<Vec<(NodeId, NodeId)>, GraphError>)
    ensures
        edges_of_lines(lines(text@)) matches Ok(es) ==> (r matches Ok(v) && v@ == es),
        edges_of_lines(lines(text@)) matches Err(e) ==> r == Err::<Vec<(NodeId, NodeId)>, GraphError>(e),
{
    let ghost s = text@;
    let ghost mut done: Seq<Seq<char>> = seq![];
    let mut out: Vec<(NodeId, NodeId)> = Vec::new();
    let mut i: usize = 0;
    assert(s.skip(0) == s);
    assert(done + lines(s) == lines(s));
    while i < text.len()
        invariant
            s == text@,
            i <= s.len(),
            lines(s) == done + lines(s.skip(i as int)),
            edges_of_lines(done) == Ok::<Seq<(NodeId, NodeId)>, GraphError>(out@),
        decreases s.len() - i,
    {
        let ghost rest = s.skip(i as int);
        let mut line: Vec<char> = Vec::new();
        let mut j: usize = i;
        while j < text.len() && text[j] != '\n'
            invariant
                s == text@,
                i <= j <= s.len(),
                line@ == s.subrange(i as int, j as int),
                forall|k: int| i <= k < j ==> #[trigger] s[k] != '\n',
            decreases s.len() - j,
        {
            line.push(text[j]);
            j += 1;
        }
        proof {
            let w = (j - i) as int;
            assert forall|k: int| 0 <= k < w implies #[trigger] rest[k] != '\n' by {
                assert(rest[k] == s[i + k]);
            }
            lemma_line_len_skip(rest, w);
            assert(rest.skip(w) == s.skip(j as int));
            if j < s.len() {
                assert(s.skip(j as int)[0] == s[j as int]);
                assert(rest.skip(w + 1) == s.skip(j as int + 1));
            } else {
                assert(rest.take(w) == rest);
            }
            assert(line_len(rest) == w);
            assert(rest.take(w) == line@);
            assert(lines(s) == done.push(line@) + lines(s.skip(if j < s.len() {
                j as int + 1
            } else {
                j as int
            })));
            assert(done.push(line@).drop_last() == done);
        }
        let ghost prefix = done.push(line@);
        match parse_edge_line(line.as_slice()) {
            Err(e) => {
                proof {
                    let ls = lines(s);
                    assert(ls.take(prefix.len() as int) == prefix);
                    lemma_error_persists(ls, prefix.len() as int);
                }
                return Err(e);
            },
            Ok(Some(edge)) => {
                out.push(edge);
            },
            Ok(None) => {},
        }
        proof {
            done = prefix;
        }
        if j < text.len() {
            i = j + 1;
        } else {
            i = j;
        }
    }
    proof {
        assert(s.skip(i as int) == Seq::<char>::empty());
        assert(done + Seq::<Seq<char>>::empty() == done);
    }
    Ok(out)
}

} // verus!
