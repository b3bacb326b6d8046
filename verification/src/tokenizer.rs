//! The phoneme tokenizer: a table from single characters to token ids, read
//! from a `tokens.txt` text with one `token<TAB>id` entry per line.
use std::collections::HashMap;
use vstd::prelude::*;
use vstd::string::{StrSliceExecFns, StringExecFns};

use crate::text::{
    collect_chars, index_of_or_len, is_white_space, leading_white_space, lemma_index_of_or_len,
    parse_i64, parse_i64_range, strip_cr, text_lines, trailing_white_space, trim_bounds,
    trim_white_space,
};

verus! {

broadcast use vstd::std_specs::hash::group_hash_axioms;

/// What a line of `tokens.txt` contributes to the table.
pub enum LineKind {
    /// The line is empty, or its token is not exactly one character.
    Skip,
    /// The line maps the character to the id.
    Entry(char, i64),
    /// The line has no tab.
    BadLine,
    /// The token is one character but the id is not an `i64`.
    BadId,
}

/// Why a `tokens.txt` text was refused.
#[derive(PartialEq, Eq, Structural, Clone, Copy, Debug)]
pub enum TokenizerErrorKind {
    /// A non-empty line without a tab.
    BadTokenLine,
    /// A single-character token whose id does not parse as an `i64`.
    BadTokenId,
}

/// A refused `tokens.txt`: the kind of fault and the line that has it.
#[derive(Debug)]
pub struct TokenizerError {
    pub kind: TokenizerErrorKind,
    pub line: String,
}

/// What a line contributes: it splits at its first tab into a token and an
/// id; a token of one character with an `i64` id is an entry.
pub open spec fn classify_line(line: Seq<char>) -> LineKind {
    if line.len() == 0 {
        LineKind::Skip
    } else {
        let t = index_of_or_len(line, '\t');
        if t == line.len() {
            LineKind::BadLine
        } else if t != 1 {
            LineKind::Skip
        } else {
            match parse_i64(line.skip(2)) {
                Some(v) => LineKind::Entry(line[0], v),
                None => LineKind::BadId,
            }
        }
    }
}

/// The table that a sequence of lines builds, entry by entry (a later entry
/// for a character replaces an earlier one), or the first faulty line.
pub open spec fn token_table(lines: Seq<Seq<char>>) -> Result<
    Map<u32, i64>,
    (TokenizerErrorKind, Seq<char>),
>
    decreases lines.len(),
{
    if lines.len() == 0 {
        Ok(Map::empty())
    } else {
        match token_table(lines.drop_last()) {
            Err(e) => Err(e),
            Ok(m) => match classify_line(lines.last()) {
                LineKind::Skip => Ok(m),
                LineKind::Entry(c, v) => Ok(m.insert(c as u32, v)),
                LineKind::BadLine => Err((TokenizerErrorKind::BadTokenLine, lines.last())),
                LineKind::BadId => Err((TokenizerErrorKind::BadTokenId, lines.last())),
            },
        }
    }
}

/// Once a prefix of the lines is refused, later lines change nothing.
pub proof fn lemma_token_table_err_prefix(l1: Seq<Seq<char>>, l2: Seq<Seq<char>>)
    requires
        token_table(l1) is Err,
    ensures
        token_table(l1 + l2) == token_table(l1),
    decreases l2.len(),
{
    if l2.len() == 0 {
        assert(l1 + l2 == l1);
    } else {
        lemma_token_table_err_prefix(l1, l2.drop_last());
        assert((l1 + l2).drop_last() == l1 + l2.drop_last());
    }
}

/// What `tokens_txt` yields: the table, or the kind of fault and its line.
pub open spec fn tokens_txt_table(tokens_txt: Seq<char>) -> Result<
    Map<u32, i64>,
    (TokenizerErrorKind, Seq<char>),
> {
    token_table(text_lines(tokens_txt))
}

/// The ids of the characters of `cs` that the table knows, in order.
pub open spec fn encode_seq(m: Map<u32, i64>, cs: Seq<char>) -> Seq<i64>
    decreases cs.len(),
{
    if cs.len() == 0 {
        seq![]
    } else {
        encode_seq(m, cs.drop_last()) + if m.contains_key(cs.last() as u32) {
            seq![m[cs.last() as u32]]
        } else {
            seq![]
        }
    }
}

/// A table from characters to token ids.
pub struct Tokenizer {
    token_to_id: HashMap<u32, i64>,
}

impl View for Tokenizer {
    type V = Map<u32, i64>;

    /// The table, keyed by each character's code point.
    closed spec fn view(&self) -> Map<u32, i64> {
        self.token_to_id@
    }
}

impl TokenizerError {
    /// The text that the error is shown with.
    pub fn message(&self) -> (s: String)
        ensures
            s@ == (match self.kind {
                TokenizerErrorKind::BadTokenLine => "bad token line: "@,
                TokenizerErrorKind::BadTokenId => "bad token id: "@,
            }) + self.line@,
    {
        let mut s = match self.kind {
            TokenizerErrorKind::BadTokenLine => String::from_str("bad token line: "),
            TokenizerErrorKind::BadTokenId => String::from_str("bad token id: "),
        };
        s.append(self.line.as_str());
        s
    }
}

/// Classifies the line `chars[start..end]`.
fn classify_range(chars: &Vec<char>, start: usize, end: usize) -> (r: LineKind)
    requires
        start <= end <= chars.len(),
    ensures
        r == classify_line(chars@.subrange(start as int, end as int)),
{
    let ghost line = chars@.subrange(start as int, end as int);
    if start == end {
        return LineKind::Skip;
    }
    let mut j = start;
    while j < end && chars[j] != '\t'
        invariant
            start <= j <= end <= chars.len(),
            forall|k: int| start <= k < j ==> chars@[k] != '\t',
        decreases end - j,
    {
        j += 1;
    }
    proof {
        assert forall|k: int| 0 <= k < j - start implies line[k] != '\t' by {
            assert(line[k] == chars@[start + k]);
        }
        if j < end {
            assert(line[j - start] == chars@[j as int]);
        }
        lemma_index_of_or_len(line, '\t', j - start);
    }
    if j == end {
        return LineKind::BadLine;
    }
    if j - start != 1 {
        return LineKind::Skip;
    }
    assert(line.skip(2) == chars@.subrange(start + 2, end as int));
    match parse_i64_range(chars, start + 2, end) {
        Some(v) => LineKind::Entry(chars[start], v),
        None => LineKind::BadId,
    }
}

impl Tokenizer {
    /// Reads the table from `tokens_txt`, one `token<TAB>id` entry per line
    /// (lines as `str::lines` splits them). Empty lines and lines whose token
    /// is not exactly one character are skipped; a later entry for a
    /// character replaces an earlier one. Fails at the first non-empty line
    /// without a tab, or the first single-character token whose id is not an
    /// `i64`.
    pub fn from_tokens_txt(tokens_txt: &str) -> (r: Result<Tokenizer, TokenizerError>)
        ensures
            match r {
                Ok(t) => tokens_txt_table(tokens_txt@) == Ok::<
                    Map<u32, i64>,
                    (TokenizerErrorKind, Seq<char>),
                >(t@),
                Err(e) => tokens_txt_table(tokens_txt@) == Err::<
                    Map<u32, i64>,
                    (TokenizerErrorKind, Seq<char>),
                >((e.kind, e.line@)),
            },
    {
        let chars = collect_chars(tokens_txt);
        let n = chars.len();
        let mut token_to_id: HashMap<u32, i64> = HashMap::new();
        let mut pos: usize = 0;
        let ghost mut done: Seq<Seq<char>> = seq![];
        assert(chars@.skip(0) == chars@);
        assert(done + text_lines(chars@) == text_lines(chars@));
        while pos < n
            invariant
                pos <= n == chars.len(),
                chars@ == tokens_txt@,
                text_lines(chars@) == done + text_lines(chars@.skip(pos as int)),
                token_table(done) == Ok::<Map<u32, i64>, (TokenizerErrorKind, Seq<char>)>(
                    token_to_id@,
                ),
            decreases n - pos,
        {
            let mut j = pos;
            while j < n && chars[j] != '\n'
                invariant
                    pos <= j <= n == chars.len(),
                    forall|k: int| pos <= k < j ==> chars@[k] != '\n',
                decreases n - j,
            {
                j += 1;
            }
            let mut end = j;
            if j < n && j > pos && chars[j - 1] == '\r' {
                end = j - 1;
            }
            let ghost rest = chars@.skip(pos as int);
            let ghost line = chars@.subrange(pos as int, end as int);
            proof {
                assert forall|k: int| 0 <= k < j - pos implies rest[k] != '\n' by {
                    assert(rest[k] == chars@[pos + k]);
                }
                if j < n {
                    assert(rest[j - pos] == chars@[j as int]);
                }
                lemma_index_of_or_len(rest, '\n', j - pos);
                if j < n {
                    assert(rest.take(j - pos) == chars@.subrange(pos as int, j as int));
                    assert(rest.skip(j - pos + 1) == chars@.skip(j + 1));
                    assert(strip_cr(rest.take(j - pos)) == line);
                    assert(text_lines(rest) == seq![line] + text_lines(chars@.skip(j + 1)));
                } else {
                    assert(rest == line);
                    assert(text_lines(rest) == seq![line]);
                    assert(chars@.skip(n as int) =~= Seq::<char>::empty());
                    assert(text_lines(chars@.skip(n as int)) =~= Seq::<Seq<char>>::empty());
                }
            }
            let kind = classify_range(&chars, pos, end);
            proof {
                assert((done + seq![line]).drop_last() == done);
                assert((done + seq![line]).last() == line);
            }
            match kind {
                LineKind::Skip => {},
                LineKind::Entry(c, v) => {
                    token_to_id.insert(c as u32, v);
                },
                LineKind::BadLine => {
                    proof {
                        lemma_token_table_err_prefix(
                            done + seq![line],
                            text_lines(chars@.skip((if j < n { j + 1 } else { n as int }))),
                        );
                        assert(text_lines(chars@) == done + seq![line] + text_lines(chars@.skip(
                            (if j < n { j + 1 } else { n as int }),
                        )));
                    }
                    let text = tokens_txt.substring_char(pos, end).to_owned();
                    return Err(TokenizerError { kind: TokenizerErrorKind::BadTokenLine, line: text });
                },
                LineKind::BadId => {
                    proof {
                        lemma_token_table_err_prefix(
                            done + seq![line],
                            text_lines(chars@.skip((if j < n { j + 1 } else { n as int }))),
                        );
                        assert(text_lines(chars@) == done + seq![line] + text_lines(chars@.skip(
                            (if j < n { j + 1 } else { n as int }),
                        )));
                    }
                    let text = tokens_txt.substring_char(pos, end).to_owned();
                    return Err(TokenizerError { kind: TokenizerErrorKind::BadTokenId, line: text });
                },
            }
            proof {
                assert(done + seq![line] + text_lines(chars@.skip(
                    (if j < n { j + 1 } else { n as int }),
                )) == done + (seq![line] + text_lines(chars@.skip(
                    (if j < n { j + 1 } else { n as int }),
                ))));
                done = done + seq![line];
            }
            pos = if j < n { j + 1 } else { n };
        }
        proof {
            assert(chars@.skip(pos as int) =~= Seq::<char>::empty());
            assert(done + Seq::<Seq<char>>::empty() == done);
        }
        Ok(Tokenizer { token_to_id })
    }

    /// The ids of the characters of `text`, without its leading and trailing
    /// whitespace, that the table knows, in order; unknown characters are
    /// left out.
    pub fn encode_chars(&self, text: &str) -> (ids: Vec<i64>)
        ensures
            ids@ == encode_seq(self@, trim_white_space(text@)),
    {
        let chars = collect_chars(text);
        let (a, b) = trim_bounds(&chars);
        let ghost trimmed = chars@.subrange(a as int, b as int);
        let mut ids: Vec<i64> = Vec::new();
        let mut i = a;
        while i < b
            invariant
                a <= i <= b <= chars.len(),
                trimmed == chars@.subrange(a as int, b as int),
                ids@ == encode_seq(self@, trimmed.take(i - a)),
            decreases b - i,
        {
            let c = chars[i];
            assert(trimmed.take(i + 1 - a).drop_last() == trimmed.take(i - a));
            assert(trimmed.take(i + 1 - a).last() == c);
            match self.token_to_id.get(&(c as u32)) {
                Some(id) => {
                    ids.push(*id);
                },
                None => {},
            }
            i += 1;
        }
        assert(trimmed.take(b - a) == trimmed);
        ids
    }
}

/// Law: encoding distributes over concatenation: the ids of `a + b` are
/// those of `a` followed by those of `b`.
pub proof fn law_encode_concat(m: Map<u32, i64>, a: Seq<char>, b: Seq<char>)
    ensures
        encode_seq(m, a + b) == encode_seq(m, a) + encode_seq(m, b),
    decreases b.len(),
{
    if b.len() == 0 {
        assert(a + b == a);
    } else {
        law_encode_concat(m, a, b.drop_last());
        assert((a + b).drop_last() == a + b.drop_last());
        assert((a + b).last() == b.last());
    }
}

/// Law: every id that encoding gives is an id of the table, and there are
/// at most as many ids as characters.
pub proof fn law_encode_ids_in_table(m: Map<u32, i64>, cs: Seq<char>)
    ensures
        encode_seq(m, cs).len() <= cs.len(),
        forall|i: int|
            0 <= i < encode_seq(m, cs).len() ==> m.values().contains(#[trigger] encode_seq(m, cs)[i]),
    decreases cs.len(),
{
    if cs.len() > 0 {
        law_encode_ids_in_table(m, cs.drop_last());
        let prev = encode_seq(m, cs.drop_last());
        let r = encode_seq(m, cs);
        assert forall|i: int| 0 <= i < r.len() implies m.values().contains(#[trigger] r[i]) by {
            if i < prev.len() {
                assert(r[i] == prev[i]);
            } else {
                let c = cs.last();
                assert(m.contains_key(c as u32) && m[c as u32] == r[i]);
                assert(m.dom().contains(c as u32));
            }
        }
    }
}

/// Whether the line maps the character `c` to some id.
pub open spec fn line_maps(line: Seq<char>, c: char) -> bool {
    match classify_line(line) {
        LineKind::Entry(d, _) => d == c,
        _ => false,
    }
}

/// Law: the table holds a character exactly when some line maps it, and
/// then with the id of the last line that does.
pub proof fn law_table_from_lines(lines: Seq<Seq<char>>, c: char)
    requires
        token_table(lines) is Ok,
    ensures
        token_table(lines)->Ok_0.contains_key(c as u32) <==> exists|i: int|
            0 <= i < lines.len() && #[trigger] line_maps(lines[i], c),
        forall|i: int|
            0 <= i < lines.len() && line_maps(lines[i], c) && (forall|j: int|
                i < j < lines.len() ==> !#[trigger] line_maps(lines[j], c)) ==> #[trigger] classify_line(
                lines[i],
            ) == LineKind::Entry(c, token_table(lines)->Ok_0[c as u32]),
    decreases lines.len(),
{
    if lines.len() > 0 {
        let d = lines.drop_last();
        law_table_from_lines(d, c);
        let last = lines.len() - 1;
        assert forall|i: int| 0 <= i < d.len() implies #[trigger] classify_line(d[i])
            == classify_line(lines[i]) by {
            assert(d[i] == lines[i]);
        }
        assert(lines.last() == lines[last]);
        let m = token_table(lines)->Ok_0;
        if m.contains_key(c as u32) && !line_maps(lines[last], c) {
            let i = choose|i: int| 0 <= i < d.len() && #[trigger] line_maps(d[i], c);
            assert(d[i] == lines[i]);
        }
        if exists|i: int| 0 <= i < lines.len() && #[trigger] line_maps(lines[i], c) {
            let i = choose|i: int| 0 <= i < lines.len() && #[trigger] line_maps(lines[i], c);
            if i < last {
                assert(d[i] == lines[i]);
                assert(line_maps(d[i], c));
            }
        }
        assert forall|i: int|
            0 <= i < lines.len() && line_maps(lines[i], c) && (forall|j: int|
                i < j < lines.len() ==> !#[trigger] line_maps(lines[j], c)) implies #[trigger] classify_line(
                lines[i],
            ) == LineKind::Entry(c, m[c as u32]) by {
            if i < last {
                assert(!line_maps(lines[last], c));
                assert forall|j: int| i < j < d.len() implies !#[trigger] line_maps(d[j], c) by {
                    assert(d[j] == lines[j]);
                }
                assert(d[i] == lines[i]);
            }
        }
    }
}

/// Law: what a line writes, encoding reads back: a character that the
/// table holds and that is not whitespace encodes, alone, to its id.
pub proof fn law_read_back(tokens_txt: Seq<char>, c: char)
    requires
        tokens_txt_table(tokens_txt) is Ok,
        tokens_txt_table(tokens_txt)->Ok_0.contains_key(c as u32),
        !is_white_space(c),
    ensures
        encode_seq(tokens_txt_table(tokens_txt)->Ok_0, trim_white_space(seq![c])) == seq![
            tokens_txt_table(tokens_txt)->Ok_0[c as u32],
        ],
{
    let s = seq![c];
    assert(s.drop_first().len() == 0);
    assert(leading_white_space(s) == 0);
    assert(s.drop_last().len() == 0);
    assert(trailing_white_space(s) == 0);
    assert(trim_white_space(s) == s);
    assert(s.drop_last() == Seq::<char>::empty());
    let m = tokens_txt_table(tokens_txt)->Ok_0;
    assert(encode_seq(m, Seq::<char>::empty()) == Seq::<i64>::empty());
    assert(s.last() == c);
    assert(encode_seq(m, s) == Seq::<i64>::empty() + seq![m[c as u32]]);
    assert(Seq::<i64>::empty() + seq![m[c as u32]] == seq![m[c as u32]]);
}

} // verus!
