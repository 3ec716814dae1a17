//! The copyright document, made from the text of a license.

use vstd::prelude::*;
use vstd::utf8::encode_utf8;
use crate::config::{Config, ConfigView};
use crate::error::ConfigError;
use crate::number::{digits_value, parse_number, parsed_number, unsigned_part};
use crate::text::{push_char, push_chars, to_chars};

verus! {

/// Whether `c` is white space: a character with the Unicode property
/// `White_Space`.
pub open spec fn is_whitespace(c: char) -> bool {
    let code = c as u32;
    ||| 0x09 <= code <= 0x0d
    ||| code == 0x20
    ||| code == 0x85
    ||| code == 0xa0
    ||| code == 0x1680
    ||| 0x2000 <= code <= 0x200a
    ||| code == 0x2028
    ||| code == 0x2029
    ||| code == 0x202f
    ||| code == 0x205f
    ||| code == 0x3000
}

/// `line` without the white space at its end.
pub open spec fn trim_end(line: Seq<char>) -> Seq<char>
    decreases line.len(),
{
    if line.len() > 0 && is_whitespace(line.last()) {
        trim_end(line.drop_last())
    } else {
        line
    }
}

/// `line` without the white space at its start.
pub open spec fn trim_start(line: Seq<char>) -> Seq<char>
    decreases line.len(),
{
    if line.len() > 0 && is_whitespace(line.first()) {
        trim_start(line.drop_first())
    } else {
        line
    }
}

/// `line` without the white space at its start and at its end.
pub open spec fn trim(line: Seq<char>) -> Seq<char> {
    trim_start(trim_end(line))
}

/// The line of the document that a line of the license becomes: a single
/// `.` where the line holds white space only, else the line without the
/// white space around it; and a line feed behind either.
pub open spec fn rendered_line(line: Seq<char>) -> Seq<char> {
    if trim(line).len() == 0 {
        seq!['.', '\n']
    } else {
        trim(line).push('\n')
    }
}

/// The place of the first line feed in `text`, or its length where it has
/// none.
pub open spec fn first_newline(text: Seq<char>) -> nat
    decreases text.len(),
{
    if text.len() == 0 || text.first() == '\n' {
        0
    } else {
        1 + first_newline(text.drop_first())
    }
}

/// The lines of `text`: what stands between its line feeds. A line feed at
/// the very end begins no further line.
pub open spec fn lines(text: Seq<char>) -> Seq<Seq<char>>
    decreases text.len(),
{
    if text.len() == 0 {
        Seq::empty()
    } else if first_newline(text) < text.len() {
        seq![text.take(first_newline(text) as int)] + lines(
            text.skip(first_newline(text) as int + 1),
        )
    } else {
        seq![text]
    }
}

/// `lines` without the first `count` of them.
pub open spec fn after_skipping(lines: Seq<Seq<char>>, count: nat) -> Seq<Seq<char>> {
    if count >= lines.len() {
        Seq::empty()
    } else {
        lines.skip(count as int)
    }
}

/// The lines of the document that `lines` become, one after the other.
pub open spec fn rendered(lines: Seq<Seq<char>>) -> Seq<char>
    decreases lines.len(),
{
    if lines.len() == 0 {
        Seq::empty()
    } else {
        rendered_line(lines.first()) + rendered(lines.drop_first())
    }
}

/// The number of lines to skip at the top of the license file: what stands
/// behind the path in the license file reference, read as a decimal number,
/// and 0 where nothing stands there or it is no such number.
pub open spec fn skipped_lines(license_file: Seq<Seq<char>>) -> nat {
    if license_file.len() < 2 {
        0
    } else {
        match parsed_number(license_file[1], 10, usize::MAX as nat) {
            Some(count) => count,
            None => 0,
        }
    }
}

/// The four lines at the head of the document.
pub open spec fn copyright_header(options: ConfigView) -> Seq<char> {
    "Upstream Name: "@ + options.name + "\n"@ + "Source: "@ + options.repository + "\n"@
        + "Copyright: "@ + options.copyright + "\n"@ + "License: "@ + options.license + "\n"@
}

/// The text of the copyright document: the head, then the lines of the
/// license behind those that are skipped.
pub open spec fn copyright_text(options: ConfigView, license: Seq<char>) -> Seq<char> {
    copyright_header(options) + rendered(
        after_skipping(lines(license), skipped_lines(options.license_file)),
    )
}

/// The copyright document, in UTF-8, or the error where the configuration
/// names no license file.
pub open spec fn copyright_document_of(options: ConfigView, license: Seq<char>) -> Result<
    Seq<u8>,
    ConfigError,
> {
    if options.license_file.len() == 0 {
        Err(ConfigError::MissingLicenseFile)
    } else {
        Ok(encode_utf8(copyright_text(options, license)))
    }
}

/// The first line feed of a text is where no line feed stands before.
proof fn lemma_first_newline(text: Seq<char>, place: int)
    requires
        0 <= place <= text.len(),
        forall|i: int| 0 <= i < place ==> text[i] != '\n',
        place < text.len() ==> text[place] == '\n',
    ensures
        first_newline(text) == place,
    decreases text.len(),
{
    if place > 0 {
        let rest = text.drop_first();
        assert forall|i: int| 0 <= i < place - 1 implies rest[i] != '\n' by {
            assert(rest[i] == text[i + 1]);
        }
        lemma_first_newline(rest, place - 1);
    }
}

/// Trimming a stretch of text leaves the stretch between its first and its
/// last character that is no white space.
proof fn lemma_trim(text: Seq<char>, from: int, start: int, end: int, to: int)
    requires
        0 <= from <= start <= end <= to <= text.len(),
        forall|i: int| from <= i < start ==> is_whitespace(text[i]),
        forall|i: int| end <= i < to ==> is_whitespace(text[i]),
        start < end ==> !is_whitespace(text[start]) && !is_whitespace(text[end - 1]),
    ensures
        trim(text.subrange(from, to)) == text.subrange(start, end),
{
    lemma_trim_end(text, from, end, to);
    lemma_trim_start(text, from, start, end);
}

proof fn lemma_trim_end(text: Seq<char>, from: int, end: int, to: int)
    requires
        0 <= from <= end <= to <= text.len(),
        forall|i: int| end <= i < to ==> is_whitespace(text[i]),
    ensures
        trim_end(text.subrange(from, to)) == trim_end(text.subrange(from, end)),
    decreases to - end,
{
    if end < to {
        let whole = text.subrange(from, to);
        assert(whole.last() == text[to - 1]);
        assert(whole.drop_last() == text.subrange(from, to - 1));
        lemma_trim_end(text, from, end, to - 1);
    }
}

proof fn lemma_trim_start(text: Seq<char>, from: int, start: int, end: int)
    requires
        0 <= from <= start <= end <= text.len(),
        forall|i: int| from <= i < start ==> is_whitespace(text[i]),
        start < end ==> !is_whitespace(text[start]) && !is_whitespace(text[end - 1]),
    ensures
        trim_start(trim_end(text.subrange(from, end))) == text.subrange(start, end),
    decreases start - from,
{
    let whole = text.subrange(from, end);
    if start == end {
        if from < end {
            assert(whole.last() == text[end - 1]);
            assert(whole.drop_last() == text.subrange(from, end - 1));
            lemma_trim_start(text, from, end - 1, end - 1);
            assert(text.subrange(end - 1, end - 1) =~= text.subrange(start, end));
        } else {
            assert(whole.len() == 0);
        }
    } else {
        assert(whole.last() == text[end - 1]);
        assert(trim_end(whole) == whole);
        if from < start {
            assert(whole.first() == text[from]);
            assert(whole.drop_first() == text.subrange(from + 1, end));
            lemma_trim_start(text, from + 1, start, end);
            let shorter = text.subrange(from + 1, end);
            assert(shorter.last() == text[end - 1]);
            assert(trim_end(shorter) == shorter);
        } else {
            assert(whole.first() == text[start]);
        }
    }
}

/// What is left of a line after trimming neither begins nor ends with white
/// space, and trimming it again changes nothing.
pub proof fn lemma_trimmed(line: Seq<char>)
    ensures
        ({
            let trimmed = trim(line);
            &&& trimmed.len() > 0 ==> !is_whitespace(trimmed.first()) && !is_whitespace(
                trimmed.last(),
            )
            &&& trim(trimmed) == trimmed
        }),
{
    lemma_trimmed_end(line);
    lemma_trimmed_start(trim_end(line));
    let trimmed = trim(line);
    if trimmed.len() > 0 {
        assert(trim_end(trimmed) == trimmed);
        assert(trim_start(trimmed) == trimmed);
    }
}

proof fn lemma_trimmed_end(line: Seq<char>)
    ensures
        trim_end(line).len() > 0 ==> !is_whitespace(trim_end(line).last()),
    decreases line.len(),
{
    if line.len() > 0 && is_whitespace(line.last()) {
        lemma_trimmed_end(line.drop_last());
    }
}

proof fn lemma_trimmed_start(line: Seq<char>)
    ensures
        trim_start(line).len() > 0 ==> !is_whitespace(trim_start(line).first()) && trim_start(
            line,
        ).last() == line.last(),
    decreases line.len(),
{
    if line.len() > 0 && is_whitespace(line.first()) {
        lemma_trimmed_start(line.drop_first());
    }
}

/// No line has a line feed in it.
pub proof fn lemma_lines(text: Seq<char>)
    ensures
        forall|i: int| 0 <= i < lines(text).len() ==> !(#[trigger] lines(text)[i]).contains('\n'),
    decreases text.len(),
{
    if text.len() > 0 {
        let end = first_newline(text) as int;
        lemma_no_newline_before(text);
        let first = text.take(end);
        assert forall|k: int| 0 <= k < first.len() implies first[k] != '\n' by {
            assert(first[k] == text[k]);
        }
        if end < text.len() {
            let rest = text.skip(end + 1);
            lemma_lines(rest);
            assert forall|i: int| 0 <= i < lines(text).len() implies !(#[trigger] lines(
                text,
            )[i]).contains('\n') by {
                if i > 0 {
                    assert(lines(text)[i] == lines(rest)[i - 1]);
                }
            }
        }
    }
}

proof fn lemma_no_newline_before(text: Seq<char>)
    ensures
        first_newline(text) <= text.len(),
        forall|i: int| 0 <= i < first_newline(text) ==> text[i] != '\n',
    decreases text.len(),
{
    if text.len() > 0 && text.first() != '\n' {
        let rest = text.drop_first();
        lemma_no_newline_before(rest);
        assert forall|i: int| 0 <= i < first_newline(text) implies text[i] != '\n' by {
            if i > 0 {
                assert(text[i] == rest[i - 1]);
            }
        }
    }
}

/// A line of the document is never blank: it holds a `.` or a trimmed line
/// that is not empty, and ends with a line feed.
pub proof fn lemma_rendered_line(line: Seq<char>)
    ensures
        ({
            let text = rendered_line(line);
            &&& text.len() >= 2
            &&& text.last() == '\n'
            &&& !is_whitespace(text.first())
            &&& trim(line).len() == 0 ==> text == seq!['.', '\n']
            &&& trim(line).len() > 0 ==> text.drop_last() == trim(line)
        }),
{
    lemma_trimmed(line);
    if trim(line).len() > 0 {
        assert(trim(line).push('\n').drop_last() == trim(line));
    }
}

/// A count that is absent or is no number skips no line, as the count `0`
/// does: the document then holds every line of the license.
pub proof fn lemma_skip_default(options: ConfigView, zero: ConfigView, license: Seq<char>)
    requires
        options.license_file.len() >= 1,
        options.license_file.len() < 2 || parsed_number(
            options.license_file[1],
            10,
            usize::MAX as nat,
        ) is None,
        zero == (ConfigView {
            license_file: seq![options.license_file[0], seq!['0']],
            ..options
        }),
    ensures
        skipped_lines(options.license_file) == 0,
        skipped_lines(zero.license_file) == 0,
        copyright_text(options, license) == copyright_text(zero, license),
        copyright_text(options, license) == copyright_header(options) + rendered(lines(license)),
        copyright_document_of(options, license) == copyright_document_of(zero, license),
{
    let digits = seq!['0'];
    assert(unsigned_part(digits) == digits);
    assert(digits.drop_last() =~= Seq::<char>::empty());
    assert(digits_value(digits, 10) == 0) by {
        reveal_with_fuel(digits_value, 2);
    }
    assert(after_skipping(lines(license), 0) =~= lines(license));
}

/// Skipping among a line and the lines behind it.
proof fn lemma_skip_one(line: Seq<char>, others: Seq<Seq<char>>, count: nat)
    ensures
        count > 0 ==> after_skipping(seq![line] + others, count) == after_skipping(
            others,
            (count - 1) as nat,
        ),
        rendered(after_skipping(seq![line] + others, 0)) == rendered_line(line) + rendered(
            after_skipping(others, 0),
        ),
{
    let all = seq![line] + others;
    if count > 0 && count < all.len() {
        assert(all.skip(count as int) =~= others.skip(count - 1));
    }
    assert(all.skip(0) =~= all);
    assert(all.first() == line);
    assert(all.drop_first() =~= others);
    assert(after_skipping(others, 0) =~= others);
    assert(after_skipping(all, 0) == all);
    assert(rendered(all) == rendered_line(all.first()) + rendered(all.drop_first()));
}

/// Whether `c` is white space.
pub fn whitespace(c: char) -> (answer: bool)
    ensures
        answer == is_whitespace(c),
{
    let code: u32 = c as u32;
    (0x09 <= code && code <= 0x0d) || code == 0x20 || code == 0x85 || code == 0xa0 || code
        == 0x1680 || (0x2000 <= code && code <= 0x200a) || code == 0x2028 || code == 0x2029
        || code == 0x202f || code == 0x205f || code == 0x3000
}

/// Adds to `out` the line of the document that `chars[from..to]` becomes.
fn push_rendered_line(out: &mut String, chars: &Vec<char>, from: usize, to: usize)
    requires
        from <= to <= chars.len(),
    ensures
        final(out)@ == old(out)@ + rendered_line(chars@.subrange(from as int, to as int)),
{
    let mut end: usize = to;
    while end > from && whitespace(chars[end - 1])
        invariant
            from <= end <= to <= chars.len(),
            forall|i: int| end <= i < to ==> is_whitespace(chars@[i]),
        decreases end,
    {
        end -= 1;
    }
    let mut start: usize = from;
    while start < end && whitespace(chars[start])
        invariant
            from <= start <= end <= to <= chars.len(),
            forall|i: int| from <= i < start ==> is_whitespace(chars@[i]),
        decreases end - start,
    {
        start += 1;
    }
    proof {
        lemma_trim(chars@, from as int, start as int, end as int, to as int);
    }
    if start == end {
        push_char(out, '.');
        push_char(out, '\n');
    } else {
        push_chars(out, chars, start, end);
        push_char(out, '\n');
    }
}

/// The line of the document that a line of the license becomes.
pub fn render_line(line: &str) -> (text: String)
    ensures
        text@ == rendered_line(line@),
{
    let chars = to_chars(line);
    let mut text = String::new();
    push_rendered_line(&mut text, &chars, 0, chars.len());
    assert(chars@.subrange(0, chars.len() as int) == chars@);
    text
}

/// Adds to `out` the lines of the document that the lines of `chars` become,
/// but for the first `skip` of them.
fn push_rendered_lines(out: &mut String, chars: &Vec<char>, skip: usize)
    ensures
        final(out)@ == old(out)@ + rendered(after_skipping(lines(chars@), skip as nat)),
{
    let ghost text = chars@;
    let ghost total = old(out)@ + rendered(after_skipping(lines(text), skip as nat));
    let mut remaining: usize = skip;
    let mut pos: usize = 0;
    assert(text.skip(0) == text);
    while pos < chars.len()
        invariant
            pos <= chars.len(),
            text == chars@,
            total == out@ + rendered(
                after_skipping(lines(text.skip(pos as int)), remaining as nat),
            ),
        decreases chars.len() - pos,
    {
        let mut end: usize = pos;
        while end < chars.len() && chars[end] != '\n'
            invariant
                pos <= end <= chars.len(),
                forall|i: int| pos <= i < end ==> chars@[i] != '\n',
            decreases chars.len() - end,
        {
            end += 1;
        }
        let next: usize = if end < chars.len() { end + 1 } else { end };
        let ghost rest = text.skip(pos as int);
        let ghost line = text.subrange(pos as int, end as int);
        let ghost others = lines(text.skip(next as int));
        proof {
            assert forall|i: int| 0 <= i < end - pos implies rest[i] != '\n' by {}
            lemma_first_newline(rest, end - pos);
            assert(rest.take(end - pos) == line);
            if end < chars.len() {
                assert(rest.skip(end - pos + 1) == text.skip(next as int));
            }
            lemma_skip_one(line, others, remaining as nat);
        }
        if remaining > 0 {
            remaining -= 1;
        } else {
            push_rendered_line(out, chars, pos, end);
        }
        pos = next;
    }
}

/// The number of lines to skip at the top of the license file.
pub fn skip_lines(license_file: &Vec<String>) -> (count: usize)
    ensures
        count == skipped_lines(license_file.deep_view()),
{
    if license_file.len() < 2 {
        return 0;
    }
    match parse_number(license_file[1].as_str(), false, usize::MAX as u64) {
        Some(count) => count as usize,
        None => 0,
    }
}

/// The path of the license file.
pub fn license_path(options: &Config) -> (path: Result<&String, ConfigError>)
    ensures
        match path {
            Ok(path) => options.license_file.len() > 0 && *path == options.license_file[0],
            Err(error) => options.license_file.len() == 0 && error
                == ConfigError::MissingLicenseFile,
        },
{
    if options.license_file.len() == 0 {
        Err(ConfigError::MissingLicenseFile)
    } else {
        Ok(&options.license_file[0])
    }
}

/// Makes the copyright document from the configuration and the text of the
/// license file.
pub fn copyright_document(
    options: &Config,
    license_text: &str,
) -> (document: Result<Vec<u8>, ConfigError>)
    ensures
        match document {
            Ok(bytes) => copyright_document_of(options@, license_text@) == Ok::<
                Seq<u8>,
                ConfigError,
            >(bytes@),
            Err(error) => copyright_document_of(options@, license_text@) == Err::<
                Seq<u8>,
                ConfigError,
            >(error),
        },
{
    if options.license_file.len() == 0 {
        return Err(ConfigError::MissingLicenseFile);
    }
    let mut text = String::new();
    text.append("Upstream Name: ");
    text.append(options.name.as_str());
    text.append("\n");
    text.append("Source: ");
    text.append(options.repository.as_str());
    text.append("\n");
    text.append("Copyright: ");
    text.append(options.copyright.as_str());
    text.append("\n");
    text.append("License: ");
    text.append(options.license.as_str());
    text.append("\n");
    let chars = to_chars(license_text);
    push_rendered_lines(&mut text, &chars, skip_lines(&options.license_file));
    Ok(text.as_str().as_bytes_vec())
}

} // verus!
