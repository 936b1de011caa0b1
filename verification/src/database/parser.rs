//! The parser of localization files.
//!
//! A localization file starts with the encoding marker, the byte-order mark
//! `U+FEFF`, which is the three bytes `EF BB BF`. A file without it holds no
//! keys and is no error. Of the text behind the marker, a `#` starts a
//! comment that runs to the end of its line, and lines that hold nothing but
//! whitespace and a comment do not count. The first line that counts names
//! the language and ends in a colon; each further one holds a key, a colon,
//! an optional revision number and the value in double quotes:
//!
//! ```text
//! l_english:
//!  canal_suez:0 "Suez Canal"
//! ```

use crate::database::Language;
use crate::error::{file_reference, Error, ErrorKind, ErrorView};
use crate::text::{
    chars_of, find_char, index_of, skip_digits_and_whitespace, skip_digits_and_whitespace_from,
    string_of, trim, trim_range,
};
use vstd::prelude::*;
use vstd::string::*;
use vstd::utf8::*;

verus! {

/// A line that counts: its number in the text behind the marker, counted
/// from zero, and what is left of it without comment and surrounding
/// whitespace.
pub struct Line {
    pub number: nat,
    pub text: Seq<char>,
}

/// What parsing a file's content comes to.
pub enum ParseOutcome {
    Parsed { language: Language, keys: Seq<(Seq<char>, Seq<char>)> },
    Failed { kind: ErrorKind, line: Line },
}

/// The encoding marker: the byte-order mark.
pub open spec fn marker() -> char {
    '\u{feff}'
}

/// The content behind the encoding marker, if the content starts with the
/// marker.
pub open spec fn strip_marker(content: Seq<char>) -> Option<Seq<char>> {
    if content.len() > 0 && content[0] == marker() {
        Some(content.skip(1))
    } else {
        None
    }
}

/// A line without its comment and without surrounding whitespace.
pub open spec fn clean(line: Seq<char>) -> Seq<char> {
    trim(line.take(index_of(line, '#')))
}

/// The lines of `text` that are not empty once cleaned, in order. Lines end
/// at `\n`; the first line of `text` has the number `number`.
pub open spec fn significant_lines(text: Seq<char>, number: nat) -> Seq<Line>
    decreases text.len(),
{
    if text.len() == 0 {
        Seq::empty()
    } else {
        let end = index_of(text, '\n');
        let head = clean(text.take(end));
        let rest = if 0 <= end < text.len() {
            significant_lines(text.skip(end + 1), number + 1)
        } else {
            Seq::empty()
        };
        if head.len() == 0 {
            rest
        } else {
            seq![Line { number, text: head }] + rest
        }
    }
}

/// The key and the value of a key line, or `None` where the line has no
/// colon or what follows the colon and the revision number does not start
/// and end with a double quote. The key is all that stands before the first
/// colon; the value is what stands between the two quotes.
pub open spec fn key_entry(line: Seq<char>) -> Option<(Seq<char>, Seq<char>)> {
    let colon = index_of(line, ':');
    if colon >= line.len() {
        None
    } else {
        let rest = skip_digits_and_whitespace(line.skip(colon + 1));
        if rest.len() >= 2 && rest[0] == '"' && rest.last() == '"' {
            Some((line.take(colon), rest.subrange(1, rest.len() - 1)))
        } else {
            None
        }
    }
}

/// Line `i` is the first key line that is malformed.
pub open spec fn is_first_malformed(lines: Seq<Line>, i: int) -> bool {
    &&& 1 <= i < lines.len()
    &&& key_entry(lines[i].text) is None
    &&& forall|j: int| 1 <= j < i ==> key_entry((#[trigger] lines[j]).text) is Some
}

/// What the lines that count come to: nothing where there are none; else the
/// language that the first one names, and the keys of the others in order,
/// unless one of them is malformed: the first such line fails the file.
pub open spec fn parse_lines(lines: Seq<Line>) -> ParseOutcome {
    if lines.len() == 0 {
        ParseOutcome::Parsed { language: Language::English, keys: Seq::empty() }
    } else if lines[0].text.last() != ':' {
        ParseOutcome::Failed { kind: ErrorKind::MalformedLanguageSpecifier, line: lines[0] }
    } else if Language::of_specifier(lines[0].text.drop_last()) is None {
        ParseOutcome::Failed { kind: ErrorKind::UnrecognizedLanguageSpecifier, line: lines[0] }
    } else if exists|i: int| is_first_malformed(lines, i) {
        ParseOutcome::Failed {
            kind: ErrorKind::MalformedKeyLine,
            line: lines[choose|i: int| is_first_malformed(lines, i)],
        }
    } else {
        ParseOutcome::Parsed {
            language: Language::of_specifier(lines[0].text.drop_last()).unwrap(),
            keys: Seq::new(
                (lines.len() - 1) as nat,
                |k: int| key_entry(lines[k + 1].text).unwrap(),
            ),
        }
    }
}

/// What a file's content comes to. A content without room for the marker
/// holds no language and no keys, and is no error.
pub open spec fn parse_text(content: Seq<char>) -> ParseOutcome {
    match strip_marker(content) {
        None => ParseOutcome::Parsed { language: Language::English, keys: Seq::empty() },
        Some(body) => parse_lines(significant_lines(body, 0)),
    }
}

/// What the error of a kind says of the line it met.
pub open spec fn failure_text(kind: ErrorKind, line: Seq<char>) -> Seq<char> {
    match kind {
        ErrorKind::MalformedLanguageSpecifier => "Failed to find the language specifier in line `"@
            + line + "`"@,
        ErrorKind::UnrecognizedLanguageSpecifier => "Unrecognized language specifier: `"@
            + line.drop_last() + "`"@,
        _ => "Failed to parse localization key in line `"@ + line + "`"@,
    }
}

/// The error for a line of the file at `path`. Users count lines from one.
pub open spec fn failure(path: Seq<char>, kind: ErrorKind, line: Line) -> ErrorView {
    ErrorView {
        kind,
        description: file_reference(path, line.number + 1, failure_text(kind, line.text)),
        line_number: Some(line.number + 1),
    }
}

/// Whether `result` is what parsing `content`, read from the file at `path`,
/// has to return.
pub open spec fn is_parse_result(
    path: Seq<char>,
    content: Seq<char>,
    result: Result<(Language, Vec<(String, String)>), Error>,
) -> bool {
    match parse_text(content) {
        ParseOutcome::Parsed { language, keys } => {
            &&& result matches Ok(parsed)
            &&& parsed.0 == language
            &&& parsed.1.deep_view() == keys
        },
        ParseOutcome::Failed { kind, line } => {
            &&& result matches Err(error)
            &&& error@ == failure(path, kind, line)
        },
    }
}

/// The three bytes of the marker.
proof fn lemma_marker_encoding()
    by (bit_vector)
    ensures
        0xE0u8 | ((0xFEFFu32 >> 12) & 0x0F) as u8 == 0xEFu8,
        0x80u8 | ((0xFEFFu32 >> 6) & 0x3F) as u8 == 0xBBu8,
        0x80u8 | (0xFEFFu32 & 0x3F) as u8 == 0xBFu8,
        (((0xEFu8 & 0x0F) as u32) << 12) | (((0xBBu8 & 0x3f) as u32) << 6) | ((0xBFu8 & 0x3f) as u32)
            == 0xFEFFu32,
{
}

/// The marker is the three bytes `EF BB BF`: a content starts with the
/// marker exactly where its UTF-8 encoding starts with these bytes, and what
/// stands behind the marker is what stands behind the three bytes.
pub proof fn lemma_marker_is_three_bytes(content: Seq<char>)
    ensures
        ({
            let bytes = encode_utf8(content);
            let marked = bytes.len() >= 3 && bytes[0] == 0xEF && bytes[1] == 0xBB && bytes[2]
                == 0xBF;
            &&& strip_marker(content) is Some <==> marked
            &&& marked ==> is_char_boundary(bytes, 3) && strip_marker(content) == Some(
                decode_utf8(bytes.skip(3)),
            )
        }),
{
    let bytes = encode_utf8(content);
    if content.len() > 0 {
        let first = content[0] as u32;
        let rest = content.drop_first();
        lemma_marker_encoding();
        encode_utf8_valid_utf8(content);
        encode_utf8_first_scalar(content);
        encode_utf8_decode_utf8(rest);
        char_is_scalar(content[0]);
        assert(bytes =~= encode_scalar(first) + encode_utf8(rest));
        if content[0] == marker() {
            assert(has_width_3_encoding(first));
            assert(encode_scalar(first) =~= seq![0xEFu8, 0xBBu8, 0xBFu8]);
        }
        if bytes.len() >= 3 && bytes[0] == 0xEF && bytes[1] == 0xBB && bytes[2] == 0xBF {
            assert(is_leading_byte_width_3(bytes[0]));
            assert(decode_first_scalar(bytes) == 0xFEFFu32);
            char_u32_cast(content[0], 0xFEFFu32);
            assert(content[0] == marker());
            assert(bytes.skip(3) =~= encode_utf8(rest));
            assert(pop_first_scalar(bytes) =~= bytes.skip(3));
            assert(is_char_boundary(bytes, 3)) by {
                reveal_with_fuel(is_char_boundary, 2);
            }
            assert(rest =~= content.skip(1));
        }
    } else {
        assert(bytes.len() == 0);
    }
}

/// A content that does not start with the marker parses to no keys, and is
/// no error.
pub proof fn lemma_content_without_marker_has_no_keys(content: Seq<char>)
    requires
        content.len() == 0 || content[0] != marker(),
    ensures
        parse_text(content) == (ParseOutcome::Parsed {
            language: Language::English,
            keys: Seq::empty(),
        }),
{
}

/// A content that is the marker and nothing else parses to no keys.
pub proof fn lemma_marker_alone_has_no_keys()
    ensures
        parse_text(seq![marker()]) == (ParseOutcome::Parsed {
            language: Language::English,
            keys: Seq::empty(),
        }),
{
    let content = seq![marker()];
    assert(content.skip(1) =~= Seq::empty());
}

/// Parsing is a function of the path and the content: what is returned for
/// the same path and content is the same, whenever they are parsed.
pub proof fn lemma_parse_is_determined(
    path: Seq<char>,
    content: Seq<char>,
    first: Result<(Language, Vec<(String, String)>), Error>,
    second: Result<(Language, Vec<(String, String)>), Error>,
)
    requires
        is_parse_result(path, content, first),
        is_parse_result(path, content, second),
    ensures
        match (first, second) {
            (Ok(a), Ok(b)) => a.0 == b.0 && a.1.deep_view() == b.1.deep_view(),
            (Err(a), Err(b)) => a@ == b@,
            _ => false,
        },
{
}

/// A line that counts, as a range of a text's characters.
struct Span {
    number: usize,
    start: usize,
    end: usize,
}

impl Span {
    spec fn line(self, chars: Seq<char>) -> Line {
        Line { number: self.number as nat, text: chars.subrange(self.start as int, self.end as int) }
    }

    spec fn within(self, chars: Seq<char>) -> bool {
        self.start < self.end <= chars.len() && self.number < chars.len()
    }
}

spec fn lines_of(spans: Seq<Span>, chars: Seq<char>) -> Seq<Line> {
    Seq::new(spans.len(), |i: int| spans[i].line(chars))
}

/// The lines of `chars` that count.
fn significant_spans(chars: &Vec<char>) -> (spans: Vec<Span>)
    ensures
        lines_of(spans@, chars@) == significant_lines(chars@, 0),
        forall|i: int| 0 <= i < spans.len() ==> (#[trigger] spans[i]).within(chars@),
{
    let mut spans: Vec<Span> = Vec::new();
    let mut pos: usize = 0;
    let mut number: usize = 0;
    let len = chars.len();
    assert(chars@.skip(0) =~= chars@);
    while pos < len
        invariant
            len == chars.len(),
            number <= pos <= len,
            significant_lines(chars@, 0) == lines_of(spans@, chars@) + significant_lines(
                chars@.skip(pos as int),
                number as nat,
            ),
            forall|i: int| 0 <= i < spans.len() ==> (#[trigger] spans[i]).within(chars@),
        decreases len - pos,
    {
        let end = find_char(chars, pos, len, '\n');
        let hash = find_char(chars, pos, end, '#');
        let (start, stop) = trim_range(chars, pos, hash);
        let ghost text = chars@.skip(pos as int);
        let ghost before = lines_of(spans@, chars@);
        proof {
            assert(text =~= chars@.subrange(pos as int, len as int));
            assert(text.take(end - pos) =~= chars@.subrange(pos as int, end as int));
            assert(chars@.subrange(pos as int, end as int).take(hash - pos) =~= chars@.subrange(
                pos as int,
                hash as int,
            ));
            assert(clean(text.take(end - pos)) == chars@.subrange(start as int, stop as int));
            if end < len {
                assert(text.skip(end - pos + 1) =~= chars@.skip(end + 1));
            }
        }
        if start < stop {
            spans.push(Span { number, start, end: stop });
            proof {
                let line = Line {
                    number: number as nat,
                    text: chars@.subrange(start as int, stop as int),
                };
                assert(lines_of(spans@, chars@) =~= before + seq![line]);
            }
        }
        if end < len {
            pos = end + 1;
            number = number + 1;
        } else {
            pos = len;
        }
        proof {
            let rest = significant_lines(chars@.skip(pos as int), number as nat);
            assert(significant_lines(chars@, 0) =~= lines_of(spans@, chars@) + rest);
        }
    }
    proof {
        assert(lines_of(spans@, chars@) + Seq::<Line>::empty() =~= lines_of(spans@, chars@));
    }
    spans
}

/// The key and the value of the key line `chars[from..to]`.
fn key_entry_in(chars: &Vec<char>, from: usize, to: usize) -> (entry: Option<(String, String)>)
    requires
        from <= to <= chars.len(),
    ensures
        entry.deep_view() == key_entry(chars@.subrange(from as int, to as int)),
{
    let ghost line = chars@.subrange(from as int, to as int);
    let colon = find_char(chars, from, to, ':');
    if colon == to {
        return None;
    }
    let start = skip_digits_and_whitespace_from(chars, colon + 1, to);
    proof {
        assert(line.skip(colon - from + 1) =~= chars@.subrange(colon + 1, to as int));
    }
    if to - start < 2 || chars[start] != '"' || chars[to - 1] != '"' {
        return None;
    }
    let key = string_of(chars, from, colon);
    let value = string_of(chars, start + 1, to - 1);
    proof {
        let rest = chars@.subrange(start as int, to as int);
        assert(line.take(colon - from) =~= key@);
        assert(rest.subrange(1, rest.len() - 1) =~= value@);
    }
    Some((key, value))
}

/// The error of `kind` for the line `chars[from..to]`, which has the
/// number `number`, counted from zero, in the file at `path`.
fn failure_at(
    path: &str,
    kind: ErrorKind,
    number: usize,
    chars: &Vec<char>,
    from: usize,
    to: usize,
) -> (error: Error)
    requires
        from <= to <= chars.len(),
        number < usize::MAX,
        kind == ErrorKind::UnrecognizedLanguageSpecifier ==> from < to,
    ensures
        error@ == failure(
            path@,
            kind,
            Line { number: number as nat, text: chars@.subrange(from as int, to as int) },
        ),
{
    let ghost line = chars@.subrange(from as int, to as int);
    let mut text = match kind {
        ErrorKind::MalformedLanguageSpecifier => String::from_str(
            "Failed to find the language specifier in line `",
        ),
        ErrorKind::UnrecognizedLanguageSpecifier => String::from_str(
            "Unrecognized language specifier: `",
        ),
        _ => String::from_str("Failed to parse localization key in line `"),
    };
    let quoted = match kind {
        ErrorKind::UnrecognizedLanguageSpecifier => string_of(chars, from, to - 1),
        _ => string_of(chars, from, to),
    };
    text.append(quoted.as_str());
    text.append("`");
    proof {
        if kind == ErrorKind::UnrecognizedLanguageSpecifier {
            assert(line.drop_last() =~= chars@.subrange(from as int, to - 1));
        }
        assert(text@ =~= failure_text(kind, line));
    }
    Error::with_file_reference(path, number + 1, text.as_str()).of_kind(kind)
}

#[derive(Debug, Default)]
pub struct Parser {}

impl Parser {
    /// Parses the content of the localization file at `path`. The path
    /// serves to say where an error lies.
    pub fn parse_localization_file(path: &str, content: &str) -> (result: Result<
        (Language, Vec<(String, String)>),
        Error,
    >)
        ensures
            is_parse_result(path@, content@, result),
    {
        let bytes = content.as_bytes();
        proof {
            lemma_marker_is_three_bytes(content@);
        }
        if bytes.len() < 3 || bytes[0] != 0xEF || bytes[1] != 0xBB || bytes[2] != 0xBF {
            let keys: Vec<(String, String)> = Vec::new();
            assert(keys.deep_view() =~= Seq::empty());
            return Ok((Language::English, keys));
        }
        let (_marker, body) = content.split_at(3);
        proof {
            let encoded = content.spec_bytes();
            encode_utf8_decode_utf8(body@);
            assert(encoded.skip(3) =~= encoded.subrange(3, encoded.len() as int));
            assert(strip_marker(content@) == Some(body@));
        }
        let chars = chars_of(body);
        let spans = significant_spans(&chars);
        let ghost lines = significant_lines(body@, 0);
        if spans.len() == 0 {
            let keys: Vec<(String, String)> = Vec::new();
            assert(keys.deep_view() =~= Seq::empty());
            return Ok((Language::English, keys));
        }
        let first = &spans[0];
        assert(lines[0] == first.line(chars@));
        assert(first.within(chars@));
        assert(first.number < chars.len() <= usize::MAX);
        if chars[first.end - 1] != ':' {
            return Err(
                failure_at(
                    path,
                    ErrorKind::MalformedLanguageSpecifier,
                    first.number,
                    &chars,
                    first.start,
                    first.end,
                ),
            );
        }
        let specifier = string_of(&chars, first.start, first.end - 1);
        assert(specifier@ =~= lines[0].text.drop_last());
        let language = match Language::from_language_specifier(specifier.as_str()) {
            Some(language) => language,
            None => {
                return Err(
                    failure_at(
                        path,
                        ErrorKind::UnrecognizedLanguageSpecifier,
                        first.number,
                        &chars,
                        first.start,
                        first.end,
                    ),
                );
            },
        };
        let mut keys: Vec<(String, String)> = Vec::new();
        let mut i: usize = 1;
        while i < spans.len()
            invariant
                1 <= i <= spans.len(),
                lines == lines_of(spans@, chars@),
                forall|j: int| 0 <= j < spans.len() ==> (#[trigger] spans[j]).within(chars@),
                keys.len() == i - 1,
                forall|j: int|
                    1 <= j < i ==> key_entry((#[trigger] lines[j]).text) == Some(
                        keys.deep_view()[j - 1],
                    ),
                parse_text(content@) == parse_lines(lines),
                lines.len() > 0,
                lines[0].text.last() == ':',
                Language::of_specifier(lines[0].text.drop_last()) == Some(language),
            decreases spans.len() - i,
        {
            let span = &spans[i];
            assert(lines[i as int] == span.line(chars@));
            assert(span.within(chars@));
            match key_entry_in(&chars, span.start, span.end) {
                Some(entry) => {
                    let ghost before = keys.deep_view();
                    keys.push(entry);
                    proof {
                        assert(keys.deep_view() =~= before.push(entry.deep_view()));
                    }
                },
                None => {
                    proof {
                        assert(is_first_malformed(lines, i as int));
                        let chosen = choose|k: int| is_first_malformed(lines, k);
                        if chosen < i {
                            assert(key_entry(lines[chosen].text) is Some);
                        } else if chosen > i {
                            assert(key_entry(lines[i as int].text) is Some);
                        }
                    }
                    return Err(
                        failure_at(
                            path,
                            ErrorKind::MalformedKeyLine,
                            span.number,
                            &chars,
                            span.start,
                            span.end,
                        ),
                    );
                },
            }
            i += 1;
        }
        proof {
            assert forall|k: int| !is_first_malformed(lines, k) by {
                if 1 <= k < lines.len() {
                    assert(key_entry(lines[k].text) is Some);
                }
            }
            let expected = Seq::new(
                (lines.len() - 1) as nat,
                |k: int| key_entry(lines[k + 1].text).unwrap(),
            );
            assert(keys.deep_view() =~= expected) by {
                assert forall|k: int| 0 <= k < expected.len() implies keys.deep_view()[k]
                    == expected[k] by {
                    assert(key_entry(lines[k + 1].text) == Some(keys.deep_view()[k]));
                }
            }
        }
        Ok((language, keys))
    }

    /// Parses one key line, cleaned of comment and surrounding whitespace.
    /// `line_number` is the line's number in the file at `path`, counted from
    /// zero.
    pub fn parse_localization_file_line(line_number: usize, line: &str, path: &str) -> (result:
        Result<(String, String), Error>)
        requires
            line_number < usize::MAX,
        ensures
            match key_entry(line@) {
                Some(entry) => result matches Ok(parsed) && parsed.deep_view() == entry,
                None => result matches Err(error) && error@ == failure(
                    path@,
                    ErrorKind::MalformedKeyLine,
                    Line { number: line_number as nat, text: line@ },
                ),
            },
    {
        let chars = chars_of(line);
        assert(chars@.subrange(0, chars.len() as int) =~= line@);
        match key_entry_in(&chars, 0, chars.len()) {
            Some(entry) => Ok(entry),
            None => Err(
                failure_at(path, ErrorKind::MalformedKeyLine, line_number, &chars, 0, chars.len()),
            ),
        }
    }
}

} // verus!
