//! Extraction of the descriptor block from a script's leading comment run.
use vstd::prelude::*;

use crate::document::{parse_toml, toml_parse_of, unique_keys, Node, Tree};
use crate::text::{chars_of, has_prefix, starts_with, string_of};

verus! {

/// How a line of the script is read by the extractor.
#[derive(Clone, Copy, Debug, PartialEq, Eq, Structural)]
pub enum LineStart {
    DocComment,
    ManifestStart,
    ManifestEnd,
    Other,
}

/// Where the extractor stands in the script.
#[derive(Clone, Copy, Debug, PartialEq, Eq, Structural)]
pub enum ParseState {
    /// No line read yet.
    Start,
    /// Inside the leading comment run, before the descriptor block.
    DocComment,
    /// Inside the descriptor block.
    Manifest,
}

/// What one line does to the extractor.
#[derive(Clone, Copy, Debug, PartialEq, Eq, Structural)]
pub enum Transition {
    /// Go on in the given state.
    Next(ParseState),
    /// Append the line's comment text to the descriptor.
    Append,
    /// The block is closed: the descriptor is complete.
    Done,
    /// Ordinary code begins before any block: there is no descriptor.
    NoBlock,
    /// A marker or code line inside the block.
    Invalid,
}

/// Why a script's manifest could not be read.
#[derive(Debug)]
pub enum ManifestError {
    /// The descriptor block is malformed.
    Block(ExtractError),
    /// The descriptor is not valid TOML.
    Syntax(toml::de::Error),
}

/// Why a descriptor could not be extracted.
#[derive(Clone, Copy, Debug, PartialEq, Eq, Structural)]
pub enum ExtractError {
    /// The script ends inside the descriptor block.
    Incomplete,
    /// A second opening marker, or a non-comment line, inside the block.
    Invalid,
}

pub open spec fn open_marker() -> Seq<char> {
    "//! ```cargo"@
}

pub open spec fn close_marker() -> Seq<char> {
    "//! ```"@
}

pub open spec fn comment_prefix() -> Seq<char> {
    "//!"@
}

pub open spec fn classify_spec(line: Seq<char>) -> LineStart {
    if starts_with(line, open_marker()) {
        LineStart::ManifestStart
    } else if starts_with(line, close_marker()) {
        LineStart::ManifestEnd
    } else if starts_with(line, comment_prefix()) {
        LineStart::DocComment
    } else {
        LineStart::Other
    }
}

pub open spec fn transition_spec(state: ParseState, kind: LineStart) -> Transition {
    match (state, kind) {
        (ParseState::Manifest, LineStart::DocComment) => Transition::Append,
        (ParseState::Manifest, LineStart::ManifestEnd) => Transition::Done,
        (ParseState::Manifest, _) => Transition::Invalid,
        (_, LineStart::Other) => Transition::NoBlock,
        (_, LineStart::ManifestStart) => Transition::Next(ParseState::Manifest),
        (_, LineStart::DocComment) => Transition::Next(ParseState::DocComment),
        (s, LineStart::ManifestEnd) => Transition::Next(s),
    }
}

/// The text of a comment line inside the block: the comment prefix and one
/// space after it removed.
pub open spec fn comment_body(line: Seq<char>) -> Seq<char> {
    let rest = line.subrange(3, line.len() as int);
    if rest.len() > 0 && rest[0] == ' ' {
        rest.drop_first()
    } else {
        rest
    }
}

/// The extractor run over `lines` from `state`, with `acc` accumulated so far.
pub open spec fn run(lines: Seq<Seq<char>>, state: ParseState, acc: Seq<char>) -> Result<
    Option<Seq<char>>,
    ExtractError,
>
    decreases lines.len(),
{
    if lines.len() == 0 {
        if state == ParseState::Manifest {
            Err(ExtractError::Incomplete)
        } else {
            Ok(None)
        }
    } else {
        let line = lines[0];
        match transition_spec(state, classify_spec(line)) {
            Transition::Next(s) => run(lines.drop_first(), s, acc),
            Transition::Append => run(
                lines.drop_first(),
                state,
                acc + comment_body(line) + seq!['\n'],
            ),
            Transition::Done => Ok(Some(acc)),
            Transition::NoBlock => Ok(None),
            Transition::Invalid => Err(ExtractError::Invalid),
        }
    }
}

/// The descriptor held by a script of the given lines: `Ok(None)` where it
/// has none.
pub open spec fn extract_spec(lines: Seq<Seq<char>>) -> Result<Option<Seq<char>>, ExtractError> {
    run(lines, ParseState::Start, Seq::empty())
}

/// A line without its line terminator's carriage return.
pub open spec fn strip_cr(l: Seq<char>) -> Seq<char> {
    if l.len() > 0 && l.last() == '\r' {
        l.drop_last()
    } else {
        l
    }
}

/// The lines of `s`, where `cur` has been read of the current line.
pub open spec fn split_from(s: Seq<char>, cur: Seq<char>) -> Seq<Seq<char>>
    decreases s.len(),
{
    if s.len() == 0 {
        if cur.len() == 0 {
            Seq::empty()
        } else {
            seq![strip_cr(cur)]
        }
    } else if s[0] == '\n' {
        seq![strip_cr(cur)] + split_from(s.drop_first(), Seq::empty())
    } else {
        split_from(s.drop_first(), cur.push(s[0]))
    }
}

/// The lines of a text: split at `\n`, a trailing `\r` removed from each,
/// and no empty line after a final `\n`.
pub open spec fn lines_of(s: Seq<char>) -> Seq<Seq<char>> {
    split_from(s, Seq::empty())
}

/// Classify one line.
pub fn classify(line: &[char]) -> (r: LineStart)
    ensures
        r == classify_spec(line@),
{
    let open = chars_of("//! ```cargo");
    let close = chars_of("//! ```");
    let comment = chars_of("//!");
    if has_prefix(line, open.as_slice()) {
        LineStart::ManifestStart
    } else if has_prefix(line, close.as_slice()) {
        LineStart::ManifestEnd
    } else if has_prefix(line, comment.as_slice()) {
        LineStart::DocComment
    } else {
        LineStart::Other
    }
}

/// The transition table of the extractor.
pub fn transition(state: ParseState, kind: LineStart) -> (r: Transition)
    ensures
        r == transition_spec(state, kind),
{
    match (state, kind) {
        (ParseState::Manifest, LineStart::DocComment) => Transition::Append,
        (ParseState::Manifest, LineStart::ManifestEnd) => Transition::Done,
        (ParseState::Manifest, _) => Transition::Invalid,
        (_, LineStart::Other) => Transition::NoBlock,
        (_, LineStart::ManifestStart) => Transition::Next(ParseState::Manifest),
        (_, LineStart::DocComment) => Transition::Next(ParseState::DocComment),
        (s, LineStart::ManifestEnd) => Transition::Next(s),
    }
}

fn strip_cr_exec(l: &mut Vec<char>)
    ensures
        final(l)@ == strip_cr(old(l)@),
{
    if l.len() > 0 && l[l.len() - 1] == '\r' {
        l.pop();
    }
}

/// Split a text into lines.
pub fn split_lines(s: &str) -> (r: Vec<Vec<char>>)
    ensures
        r@.len() == lines_of(s@).len(),
        forall|j: int| 0 <= j < r@.len() ==> #[trigger] r@[j]@ == lines_of(s@)[j],
{
    let cs = chars_of(s);
    let n = cs.len();
    let mut out: Vec<Vec<char>> = Vec::new();
    let ghost mut done: Seq<Seq<char>> = Seq::empty();
    let mut cur: Vec<char> = Vec::new();
    let mut i: usize = 0;
    assert(cs@.subrange(0, n as int) =~= cs@);
    assert(done + split_from(cs@, cur@) =~= split_from(cs@, cur@));
    assert(cur@ =~= Seq::<char>::empty());
    while i < n
        invariant
            n == cs@.len(),
            cs@ == s@,
            i <= n,
            out@.len() == done.len(),
            forall|j: int| 0 <= j < out@.len() ==> #[trigger] out@[j]@ == done[j],
            done + split_from(cs@.subrange(i as int, n as int), cur@) == lines_of(s@),
        decreases n - i,
    {
        let c = cs[i];
        let ghost rest = cs@.subrange(i as int, n as int);
        assert(rest.drop_first() =~= cs@.subrange(i + 1, n as int));
        if c == '\n' {
            let mut line = cur;
            strip_cr_exec(&mut line);
            proof {
                assert(done + split_from(rest, cur@) =~= done.push(line@) + split_from(
                    cs@.subrange(i + 1, n as int),
                    Seq::empty(),
                ));
                done = done.push(line@);
            }
            out.push(line);
            cur = Vec::new();
        } else {
            cur.push(c);
        }
        i = i + 1;
    }
    assert(cs@.subrange(n as int, n as int) =~= Seq::<char>::empty());
    if cur.len() > 0 {
        let mut line = cur;
        strip_cr_exec(&mut line);
        proof {
            assert(done + split_from(Seq::empty(), cur@) =~= done.push(line@));
            done = done.push(line@);
        }
        out.push(line);
    } else {
        assert(done + split_from(Seq::empty(), cur@) =~= done);
    }
    out
}

fn comment_body_exec(line: &[char]) -> (r: Vec<char>)
    requires
        line@.len() >= 3,
    ensures
        r@ == comment_body(line@),
{
    let mut start: usize = 3;
    if line.len() > 3 && line[3] == ' ' {
        start = 4;
    }
    let mut r: Vec<char> = Vec::new();
    let mut i: usize = start;
    while i < line.len()
        invariant
            start <= i <= line@.len(),
            r@ == line@.subrange(start as int, i as int),
        decreases line@.len() - i,
    {
        r.push(line[i]);
        i = i + 1;
    }
    assert(comment_body(line@) =~= line@.subrange(start as int, line@.len() as int));
    r
}

/// Extract the descriptor text from the lines of a script.
///
/// The descriptor is the text between the opening and the closing marker,
/// which must lie inside the contiguous comment run at the top of the
/// script. `Ok(None)` where the script holds no descriptor.
pub fn extract_descriptor(lines: &Vec<Vec<char>>) -> (r: Result<Option<String>, ExtractError>)
    ensures
        extract_spec(lines@.map_values(|l: Vec<char>| l@)) == match r {
            Ok(Some(s)) => Ok(Some(s@)),
            Ok(None) => Ok(None),
            Err(e) => Err::<Option<Seq<char>>, ExtractError>(e),
        },
{
    let ghost all = lines@.map_values(|l: Vec<char>| l@);
    let n = lines.len();
    let mut state = ParseState::Start;
    let mut acc: Vec<char> = Vec::new();
    let mut i: usize = 0;
    assert(all.subrange(0, n as int) =~= all);
    assert(acc@ =~= Seq::<char>::empty());
    while i < n
        invariant
            n == lines@.len(),
            all == lines@.map_values(|l: Vec<char>| l@),
            i <= n,
            extract_spec(all) == run(all.subrange(i as int, n as int), state, acc@),
        decreases n - i,
    {
        let line = &lines[i];
        let ghost rest = all.subrange(i as int, n as int);
        assert(rest[0] == line@);
        assert(rest.drop_first() =~= all.subrange(i + 1, n as int));
        let kind = classify(line.as_slice());
        match transition(state, kind) {
            Transition::Next(s) => {
                state = s;
            },
            Transition::Append => {
                proof {
                    reveal_strlit("//!");
                }
                let body = comment_body_exec(line.as_slice());
                let mut j: usize = 0;
                let ghost before = acc@;
                while j < body.len()
                    invariant
                        j <= body@.len(),
                        acc@ == before + body@.subrange(0, j as int),
                    decreases body@.len() - j,
                {
                    acc.push(body[j]);
                    j = j + 1;
                }
                acc.push('\n');
                assert(acc@ =~= before + comment_body(line@) + seq!['\n']);
            },
            Transition::Done => {
                return Ok(Some(string_of(acc.as_slice())));
            },
            Transition::NoBlock => {
                return Ok(None);
            },
            Transition::Invalid => {
                return Err(ExtractError::Invalid);
            },
        }
        i = i + 1;
    }
    assert(all.subrange(n as int, n as int).len() == 0);
    if state == ParseState::Manifest {
        Err(ExtractError::Incomplete)
    } else {
        Ok(None)
    }
}

/// Parse the manifest embedded in a script's text.
///
/// A script without a descriptor block has the empty table as its manifest.
pub fn parse_manifest(text: &str) -> (r: Result<Node, ManifestError>)
    ensures
        match extract_spec(lines_of(text@)) {
            Err(e) => r matches Err(ManifestError::Block(x)) && x == e,
            Ok(None) => r is Ok && r->Ok_0@ == Tree::Table(Seq::empty()),
            Ok(Some(d)) => {
                &&& (r is Ok <==> toml_parse_of(d) is Some)
                &&& (r is Ok ==> r->Ok_0@ == toml_parse_of(d)->Some_0)
                &&& (r is Err ==> r->Err_0 is Syntax)
            },
        },
        r is Ok && r->Ok_0@ is Table ==> unique_keys(r->Ok_0@->Table_0),
{
    let lines = split_lines(text);
    assert(lines@.map_values(|l: Vec<char>| l@) =~= lines_of(text@));
    match extract_descriptor(&lines) {
        Err(e) => Err(ManifestError::Block(e)),
        Ok(None) => {
            let empty: Vec<(String, Node)> = Vec::new();
            let r = Node::Table(empty);
            assert(r@->Table_0 =~= Seq::empty());
            Ok(r)
        },
        Ok(Some(d)) => match parse_toml(d.as_str()) {
            Ok(n) => Ok(n),
            Err(e) => Err(ManifestError::Syntax(e)),
        },
    }
}

/// Whether the leading comment run of `lines` holds no opening marker: no
/// line before the first line of code is an opening marker.
pub open spec fn no_block(lines: Seq<Seq<char>>) -> bool
    decreases lines.len(),
{
    lines.len() == 0 || (classify_spec(lines[0]) != LineStart::ManifestStart && (classify_spec(
        lines[0],
    ) == LineStart::Other || no_block(lines.drop_first())))
}

proof fn lemma_run_no_block(lines: Seq<Seq<char>>, state: ParseState, acc: Seq<char>)
    requires
        state != ParseState::Manifest,
        no_block(lines),
    ensures
        run(lines, state, acc) == Ok::<Option<Seq<char>>, ExtractError>(None),
    decreases lines.len(),
{
    if lines.len() > 0 {
        let kind = classify_spec(lines[0]);
        if kind != LineStart::Other {
            lemma_run_no_block(lines.drop_first(), transition_spec(state, kind)->Next_0, acc);
        }
    }
}

/// A script without a descriptor block, whether it starts with code or with
/// a comment run that holds no opening marker, yields no descriptor and no
/// error.
pub proof fn lemma_no_block_yields_none(lines: Seq<Seq<char>>)
    requires
        no_block(lines),
    ensures
        extract_spec(lines) == Ok::<Option<Seq<char>>, ExtractError>(None),
{
    lemma_run_no_block(lines, ParseState::Start, Seq::empty());
}

/// A document line written as a comment line of the block.
pub open spec fn commented(line: Seq<char>) -> Seq<char> {
    "//! "@ + line
}

/// The block that embeds the document of the given lines.
pub open spec fn wrap(doc: Seq<Seq<char>>) -> Seq<Seq<char>> {
    seq![open_marker()] + doc.map_values(|l: Seq<char>| commented(l)) + seq![close_marker()]
}

/// The text of a document of the given lines, each ended by `\n`.
pub open spec fn joined(doc: Seq<Seq<char>>) -> Seq<char>
    decreases doc.len(),
{
    if doc.len() == 0 {
        Seq::empty()
    } else {
        doc[0] + seq!['\n'] + joined(doc.drop_first())
    }
}

/// A document line that the block can hold: as a comment line it reads as
/// neither marker.
pub open spec fn embeddable(line: Seq<char>) -> bool {
    !starts_with(line, "```"@)
}

proof fn lemma_commented_line(line: Seq<char>)
    requires
        embeddable(line),
    ensures
        classify_spec(commented(line)) == LineStart::DocComment,
        comment_body(commented(line)) == line,
{
    reveal_strlit("//! ");
    reveal_strlit("//! ```cargo");
    reveal_strlit("//! ```");
    reveal_strlit("//!");
    reveal_strlit("```");
    let c = commented(line);
    if starts_with(c, open_marker()) {
        assert(c.subrange(0, 7) =~= close_marker()) by {
            assert(forall|i: int| 0 <= i < 7 ==> c.subrange(0, 7)[i] == c.subrange(0, 12)[i]);
        }
    }
    if starts_with(c, close_marker()) {
        assert(line.subrange(0, 3) =~= "```"@) by {
            assert(forall|i: int| 0 <= i < 3 ==> line.subrange(0, 3)[i] == c.subrange(0, 7)[i + 4]);
        }
    }
    assert(c.subrange(0, 3) =~= comment_prefix());
    assert(c.subrange(3, c.len() as int).drop_first() =~= line);
}

proof fn lemma_run_block(doc: Seq<Seq<char>>, rest: Seq<Seq<char>>, acc: Seq<char>)
    requires
        forall|i: int| 0 <= i < doc.len() ==> embeddable(#[trigger] doc[i]),
    ensures
        run(
            doc.map_values(|l: Seq<char>| commented(l)) + seq![close_marker()] + rest,
            ParseState::Manifest,
            acc,
        ) == Ok::<Option<Seq<char>>, ExtractError>(Some(acc + joined(doc))),
    decreases doc.len(),
{
    reveal_strlit("//! ```");
    let lines = doc.map_values(|l: Seq<char>| commented(l)) + seq![close_marker()] + rest;
    if doc.len() == 0 {
        assert(lines[0] == close_marker());
        assert(starts_with(close_marker(), close_marker())) by {
            assert(close_marker().subrange(0, 7) =~= close_marker());
        }
        if starts_with(close_marker(), open_marker()) {
            reveal_strlit("//! ```cargo");
            assert(false);
        }
        assert(acc + joined(doc) =~= acc);
    } else {
        lemma_commented_line(doc[0]);
        assert(lines[0] == commented(doc[0]));
        let tail = doc.drop_first();
        assert(lines.drop_first() =~= tail.map_values(|l: Seq<char>| commented(l)) + seq![close_marker()] + rest);
        assert forall|i: int| 0 <= i < tail.len() implies embeddable(#[trigger] tail[i]) by {
            assert(tail[i] == doc[i + 1]);
        }
        lemma_run_block(tail, rest, acc + doc[0] + seq!['\n']);
        assert(acc + doc[0] + seq!['\n'] + joined(tail) =~= acc + joined(doc));
    }
}

/// Extraction undoes embedding: a script that starts with the block made of
/// a document's lines, whatever follows, yields exactly the document's text.
pub proof fn lemma_extract_wrap(doc: Seq<Seq<char>>, rest: Seq<Seq<char>>)
    requires
        forall|i: int| 0 <= i < doc.len() ==> embeddable(#[trigger] doc[i]),
    ensures
        extract_spec(wrap(doc) + rest) == Ok::<Option<Seq<char>>, ExtractError>(Some(joined(doc))),
{
    reveal_strlit("//! ```cargo");
    let lines = wrap(doc) + rest;
    assert(lines[0] == open_marker());
    assert(starts_with(open_marker(), open_marker())) by {
        assert(open_marker().subrange(0, 12) =~= open_marker());
    }
    assert(lines.drop_first() =~= doc.map_values(|l: Seq<char>| commented(l)) + seq![close_marker()] + rest);
    lemma_run_block(doc, rest, Seq::empty());
    assert(Seq::<char>::empty() + joined(doc) =~= joined(doc));
}

} // verus!
