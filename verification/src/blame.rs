use crate::stats::{file_type_name, RepoStats};
use crate::text::chars_of;
use vstd::prelude::*;
use vstd::string::StrSliceExecFns;
use vstd::utf8::{decode_utf8, valid_utf8};

verus! {

/// The word that marks the line of a blame record that gives the author's email.
pub open spec fn marker() -> Seq<char> {
    "author-mail"@
}

/// Whether the line is the one of a blame record that gives the author's email: it starts
/// with the marker, and whitespace follows the marker.
pub open spec fn starts_record(line: Seq<char>) -> bool {
    &&& line.len() > marker().len()
    &&& line.subrange(0, marker().len() as int) == marker()
    &&& is_whitespace(line[marker().len() as int])
}

/// The characters with the Unicode property `White_Space`.
pub open spec fn is_whitespace(c: char) -> bool {
    ||| '\u{9}' <= c <= '\u{d}'
    ||| c == ' '
    ||| c == '\u{85}'
    ||| c == '\u{a0}'
    ||| c == '\u{1680}'
    ||| '\u{2000}' <= c <= '\u{200a}'
    ||| c == '\u{2028}'
    ||| c == '\u{2029}'
    ||| c == '\u{202f}'
    ||| c == '\u{205f}'
    ||| c == '\u{3000}'
}

/// The angle brackets that may enclose an email.
pub open spec fn is_bracket(c: char) -> bool {
    c == '<' || c == '>'
}

/// Where the last token of the line ends: `end` moved back over the whitespace before it.
pub open spec fn token_end(line: Seq<char>, end: int) -> int
    decreases end,
{
    if end > 0 && is_whitespace(line[end - 1]) {
        token_end(line, end - 1)
    } else {
        end
    }
}

/// Where the token that ends at `end` starts: `end` moved back over what is no whitespace.
pub open spec fn token_start(line: Seq<char>, end: int) -> int
    decreases end,
{
    if end > 0 && !is_whitespace(line[end - 1]) {
        token_start(line, end - 1)
    } else {
        end
    }
}

/// `end` moved back over the angle brackets before it, down to `start` at most.
pub open spec fn bracket_end(line: Seq<char>, start: int, end: int) -> int
    decreases end - start,
{
    if start < end && is_bracket(line[end - 1]) {
        bracket_end(line, start, end - 1)
    } else {
        end
    }
}

/// `start` moved on over the angle brackets after it, up to `end` at most.
pub open spec fn bracket_start(line: Seq<char>, start: int, end: int) -> int
    decreases end - start,
{
    if start < end && is_bracket(line[start]) {
        bracket_start(line, start + 1, end)
    } else {
        start
    }
}

/// The last of the tokens into which whitespace splits the line; empty where the line
/// holds whitespace only.
pub open spec fn last_token(line: Seq<char>) -> Seq<char> {
    let end = token_end(line, line.len() as int);
    line.subrange(token_start(line, end), end)
}

/// The token without the angle brackets at its start and at its end.
pub open spec fn without_brackets(token: Seq<char>) -> Seq<char> {
    let end = bracket_end(token, 0, token.len() as int);
    token.subrange(bracket_start(token, 0, end), end)
}

/// What follows the marker in a line of a blame record: the last of the tokens into which
/// whitespace splits it, without the angle brackets around the token.
pub open spec fn email_after_marker(line: Seq<char>) -> Seq<char> {
    without_brackets(last_token(line.skip(marker().len() as int)))
}

/// The email that a line of a blame record gives: where the line starts with the marker and
/// whitespace, the last token after the marker without the angle brackets around it, unless
/// nothing is left of it; nothing for any other line.
pub open spec fn parsed_email(line: Seq<char>) -> Option<Seq<char>> {
    if starts_record(line) && email_after_marker(line).len() > 0 {
        Some(email_after_marker(line))
    } else {
        None
    }
}

/// Moving over brackets inside a token is moving over them inside the line.
proof fn lemma_brackets_of_token(line: Seq<char>, from: int, to: int, start: int, end: int)
    requires
        0 <= from <= start <= end <= to <= line.len(),
    ensures
        bracket_end(line.subrange(from, to), start - from, end - from) == bracket_end(
            line,
            start,
            end,
        ) - from,
        bracket_start(line.subrange(from, to), start - from, end - from) == bracket_start(
            line,
            start,
            end,
        ) - from,
    decreases end - start,
{
    if start < end {
        lemma_brackets_of_token(line, from, to, start, end - 1);
        lemma_brackets_of_token(line, from, to, start + 1, end);
    }
}

fn whitespace(c: char) -> (r: bool)
    ensures
        r == is_whitespace(c),
{
    ('\u{9}' <= c && c <= '\u{d}') || c == ' ' || c == '\u{85}' || c == '\u{a0}' || c
        == '\u{1680}' || ('\u{2000}' <= c && c <= '\u{200a}') || c == '\u{2028}' || c
        == '\u{2029}' || c == '\u{202f}' || c == '\u{205f}' || c == '\u{3000}'
}

fn bracket(c: char) -> (r: bool)
    ensures
        r == is_bracket(c),
{
    c == '<' || c == '>'
}

/// Whether the line starts with the marker and whitespace follows it; `word` is the marker.
fn record_starts(line: &Vec<char>, word: &Vec<char>) -> (found: bool)
    requires
        word@ == marker(),
    ensures
        found == starts_record(line@),
{
    if line.len() <= word.len() {
        return false;
    }
    let mut k: usize = 0;
    while k < word.len() && line[k] == word[k]
        invariant
            word.len() < line.len(),
            k <= word.len(),
            forall|j: int| 0 <= j < k ==> line@[j] == word@[j],
        decreases word.len() - k,
    {
        k += 1;
    }
    if k < word.len() {
        proof {
            assert(line@.subrange(0, word.len() as int)[k as int] != word@[k as int]);
        }
        return false;
    }
    proof {
        assert(line@.subrange(0, word.len() as int) =~= word@);
    }
    whitespace(line[word.len()])
}

/// The email that a line of a blame record gives, if the line is the one that gives it:
/// where the line starts with the marker and whitespace, the last of the tokens into which
/// whitespace splits what follows the marker, without the angle brackets around it.
/// Nothing for any other line, and nothing where no email is left after the brackets are
/// taken away.
pub fn parse_email(line: &str) -> (email: Option<String>)
    ensures
        match email {
            Some(text) => parsed_email(line@) == Some(text@),
            None => parsed_email(line@) is None,
        },
{
    let all = chars_of(line);
    let word = chars_of("author-mail");
    if !record_starts(&all, &word) {
        return None;
    }
    let rest = line.substring_char(word.len(), all.len());
    let chars = chars_of(rest);
    proof {
        assert(chars@ =~= line@.skip(marker().len() as int));
    }
    let mut end: usize = chars.len();
    while end > 0 && whitespace(chars[end - 1])
        invariant
            end <= chars.len(),
            token_end(chars@, chars.len() as int) == token_end(chars@, end as int),
        decreases end,
    {
        end -= 1;
    }
    let mut start: usize = end;
    while start > 0 && !whitespace(chars[start - 1])
        invariant
            start <= end,
            end <= chars.len(),
            token_start(chars@, end as int) == token_start(chars@, start as int),
        decreases start,
    {
        start -= 1;
    }
    let mut to: usize = end;
    while start < to && bracket(chars[to - 1])
        invariant
            start <= to,
            to <= end,
            end <= chars.len(),
            bracket_end(chars@, start as int, end as int) == bracket_end(
                chars@,
                start as int,
                to as int,
            ),
        decreases to,
    {
        to -= 1;
    }
    let mut from: usize = start;
    while from < to && bracket(chars[from])
        invariant
            start <= from,
            from <= to,
            to <= chars.len(),
            bracket_start(chars@, start as int, to as int) == bracket_start(
                chars@,
                from as int,
                to as int,
            ),
        decreases to - from,
    {
        from += 1;
    }
    proof {
        let token = chars@.subrange(start as int, end as int);
        lemma_brackets_of_token(chars@, start as int, end as int, start as int, end as int);
        lemma_brackets_of_token(chars@, start as int, end as int, start as int, to as int);
        assert(last_token(chars@) == token);
        assert(token.subrange(to - start, to - start) =~= chars@.subrange(to as int, to as int));
        assert(token.subrange(from - start, to - start) =~= chars@.subrange(
            from as int,
            to as int,
        ));
        assert(email_after_marker(line@) == chars@.subrange(from as int, to as int));
    }
    if from == to {
        None
    } else {
        Some(rest.substring_char(from, to).to_owned())
    }
}

/// The path that one read of a listing of tracked files returned: the line without the
/// line feed that ends it, the line as it is where no line feed ends it, and nothing where
/// the read returned nothing, at the end of the listing.
pub fn tracked_file(line: &str) -> (path: Option<String>)
    ensures
        match path {
            Some(text) => line@.len() > 0 && text@ == (if line@.last() == '\n' {
                line@.drop_last()
            } else {
                line@
            }),
            None => line@.len() == 0,
        },
{
    let length = line.unicode_len();
    if length == 0 {
        None
    } else if line.get_char(length - 1) == '\n' {
        Some(line.substring_char(0, length - 1).to_owned())
    } else {
        Some(line.to_owned())
    }
}

/// The text that bytes stand for: what they encode in UTF-8, with the character U+FFFD in
/// place of each part of them that is no valid UTF-8.
pub uninterp spec fn lossy_text(bytes: Seq<u8>) -> Seq<char>;

/// `String::from_utf8_lossy`, made into a `String`: the text that the bytes stand for,
/// which for bytes that are valid UTF-8 is the text that they encode.
#[verifier::external_body]
fn text_of(bytes: &[u8]) -> (text: String)
    ensures
        text@ == lossy_text(bytes@),
        valid_utf8(bytes@) ==> text@ == decode_utf8(bytes@),
{
    String::from_utf8_lossy(bytes).into_owned()
}

/// Takes one line of a blame record of a file with the given extension, as the bytes that
/// were read: where the text of the line gives an author's email, one more line is
/// attributed to that author; any other line changes nothing. The text of bytes that are
/// valid UTF-8 is the text that they encode.
pub fn record_line(stats: &mut RepoStats, line: &[u8], file_extension: Option<&str>)
    requires
        old(stats).wf(),
        old(stats).total_lines.0 < u32::MAX,
    ensures
        final(stats).wf(),
        final(stats)@ == (match parsed_email(lossy_text(line@)) {
            Some(email) => old(stats)@.incremented(email, file_type_name(file_extension)),
            None => old(stats)@,
        }),
        valid_utf8(line@) ==> final(stats)@ == (match parsed_email(decode_utf8(line@)) {
            Some(email) => old(stats)@.incremented(email, file_type_name(file_extension)),
            None => old(stats)@,
        }),
{
    let text = text_of(line);
    match parse_email(text.as_str()) {
        Some(email) => stats.increment_lines(email.as_str(), file_extension),
        None => {},
    }
}

} // verus!
