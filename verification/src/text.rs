//! Text: what the library takes from `std` for it, and the small operations
//! built on that.

use vstd::prelude::*;
use vstd::string::*;
use vstd::utf8::{decode_utf8, valid_utf8};

verus! {

/// The characters with the Unicode property White_Space.
pub open spec fn is_whitespace(c: char) -> bool {
    ||| 0x9 <= c as int <= 0xd
    ||| c as int == 0x20
    ||| c as int == 0x85
    ||| c as int == 0xa0
    ||| c as int == 0x1680
    ||| 0x2000 <= c as int <= 0x200a
    ||| c as int == 0x2028
    ||| c as int == 0x2029
    ||| c as int == 0x202f
    ||| c as int == 0x205f
    ||| c as int == 0x3000
}

/// `text` without the whitespace at its two ends.
pub open spec fn trimmed(text: Seq<char>) -> Seq<char>
    decreases text.len(),
{
    if text.len() > 0 && is_whitespace(text.first()) {
        trimmed(text.drop_first())
    } else if text.len() > 0 && is_whitespace(text.last()) {
        trimmed(text.drop_last())
    } else {
        text
    }
}

/// `str::trim`: the text without leading and trailing whitespace, whitespace
/// being the Unicode property White_Space.
pub assume_specification[ str::trim ](s: &str) -> (result: &str)
    ensures
        result@ == trimmed(s@),
;

/// `text` with every occurrence of the character `from` replaced by `to`.
pub open spec fn replaced(text: Seq<char>, from: char, to: Seq<char>) -> Seq<char>
    decreases text.len(),
{
    if text.len() == 0 {
        text
    } else {
        replaced(text.drop_last(), from, to) + if text.last() == from {
            to
        } else {
            seq![text.last()]
        }
    }
}

/// Replaces every occurrence of the character `from`.
pub fn replace(text: &str, from: char, to: &str) -> (result: String)
    ensures
        result@ == replaced(text@, from, to@),
{
    let mut result = String::new();
    let length: usize = text.unicode_len();
    let mut i: usize = 0;
    while i < length
        invariant
            i <= length,
            length == text@.len(),
            result@ == replaced(text@.take(i as int), from, to@),
        decreases length - i,
    {
        proof {
            assert(text@.take(i + 1).drop_last() =~= text@.take(i as int));
            assert(text@.subrange(i as int, i + 1) =~= seq![text@[i as int]]);
        }
        if text.get_char(i) == from {
            result.append(to);
        } else {
            result.append(text.substring_char(i, i + 1));
        }
        i = i + 1;
    }
    assert(text@.take(i as int) =~= text@);
    result
}

/// The text that `String::from_utf8_lossy` makes of bytes that are not valid
/// UTF-8.
pub uninterp spec fn repaired_text(bytes: Seq<u8>) -> Seq<char>;

/// The text that bytes stand for: what they encode, or where they are not valid
/// UTF-8 what is made of them.
pub open spec fn text_of_bytes(bytes: Seq<u8>) -> Seq<char> {
    if valid_utf8(bytes) {
        decode_utf8(bytes)
    } else {
        repaired_text(bytes)
    }
}

/// `String::from_utf8_lossy`: valid UTF-8 is decoded as it is; where bytes are
/// not valid UTF-8, replacement characters stand for them, and the text depends
/// on the bytes alone.
#[verifier::external_body]
pub(crate) fn from_utf8_lossy(bytes: &[u8]) -> (result: String)
    ensures
        valid_utf8(bytes@) ==> result@ == decode_utf8(bytes@),
        !valid_utf8(bytes@) ==> result@ == repaired_text(bytes@),
{
    String::from_utf8_lossy(bytes).to_string()
}

/// How the names of a file system are kept as bytes.
#[derive(Clone, Copy, Debug, PartialEq, Eq, Structural)]
pub enum NameEncoding {
    /// As they are, where names are bytes.
    Bytes,
    /// As UTF-8, where names are 16-bit units; a surrogate without its other half
    /// is then written as three bytes as well.
    Wide,
}

/// Bytes with U+FFFD, encoded as UTF-8, in place of each encoded surrogate.
pub open spec fn without_surrogates(bytes: Seq<u8>) -> Seq<u8>
    decreases bytes.len(),
{
    if bytes.len() == 0 {
        bytes
    } else if is_surrogate_at(bytes, 0) {
        seq![0xefu8, 0xbfu8, 0xbdu8] + without_surrogates(bytes.skip(3))
    } else {
        seq![bytes[0]] + without_surrogates(bytes.skip(1))
    }
}

/// Whether the encoding of a surrogate begins at the given place.
pub open spec fn is_surrogate_at(bytes: Seq<u8>, i: int) -> bool {
    i + 3 <= bytes.len() && bytes[i] == 0xed && bytes[i + 1] >= 0xa0
}

/// The text that a name, or a path of names, stands for.
pub open spec fn text_of_name(bytes: Seq<u8>, encoding: NameEncoding) -> Seq<char> {
    match encoding {
        NameEncoding::Bytes => text_of_bytes(bytes),
        NameEncoding::Wide => text_of_bytes(without_surrogates(bytes)),
    }
}

/// Puts U+FFFD in place of each encoded surrogate.
fn mend_surrogates(bytes: &[u8]) -> (result: Vec<u8>)
    ensures
        result@ == without_surrogates(bytes@),
{
    let mut result: Vec<u8> = Vec::new();
    let mut i: usize = 0;
    assert(bytes@.skip(0) =~= bytes@);
    while i < bytes.len()
        invariant
            i <= bytes.len(),
            result@ + without_surrogates(bytes@.skip(i as int)) == without_surrogates(bytes@),
        decreases bytes.len() - i,
    {
        let ghost before = result@;
        let ghost rest = bytes@.skip(i as int);
        if bytes.len() - i >= 3 && bytes[i] == 0xed && bytes[i + 1] >= 0xa0 {
            assert(is_surrogate_at(rest, 0));
            result.push(0xef);
            result.push(0xbf);
            result.push(0xbd);
            proof {
                assert(rest.skip(3) =~= bytes@.skip(i + 3));
                assert(result@ =~= before + seq![0xefu8, 0xbfu8, 0xbdu8]);
                assert(result@ + without_surrogates(bytes@.skip(i + 3)) =~= before
                    + without_surrogates(rest));
            }
            i = i + 3;
        } else {
            assert(!is_surrogate_at(rest, 0));
            result.push(bytes[i]);
            proof {
                assert(rest.skip(1) =~= bytes@.skip(i + 1));
                assert(result@ =~= before + seq![rest[0]]);
                assert(result@ + without_surrogates(bytes@.skip(i + 1)) =~= before
                    + without_surrogates(rest));
            }
            i = i + 1;
        }
    }
    assert(result@ + without_surrogates(bytes@.skip(i as int)) =~= result@);
    result
}

/// Reads a name, or a path of names, as text.
pub fn name_text(bytes: &[u8], encoding: NameEncoding) -> (result: String)
    ensures
        result@ == text_of_name(bytes@, encoding),
{
    match encoding {
        NameEncoding::Bytes => from_utf8_lossy(bytes),
        NameEncoding::Wide => from_utf8_lossy(mend_surrogates(bytes).as_slice()),
    }
}

/// `std::str::from_utf8`: the text that the bytes encode, if they are valid
/// UTF-8. What is wrong with them otherwise is not kept.
#[verifier::external_body]
pub(crate) fn from_utf8(bytes: &[u8]) -> (result: Option<&str>)
    ensures
        result is Some == valid_utf8(bytes@),
        result matches Some(text) ==> text@ == decode_utf8(bytes@),
{
    std::str::from_utf8(bytes).ok()
}

/// The characters of `text`, at most the first `limit` of them.
pub open spec fn capped(text: Seq<char>, limit: nat) -> Seq<char> {
    if text.len() > limit {
        text.take(limit as int)
    } else {
        text
    }
}

/// Cuts `text` after `limit` characters.
pub fn cap(text: &str, limit: usize) -> (result: String)
    ensures
        result@ == capped(text@, limit as nat),
{
    if text.unicode_len() > limit {
        text.substring_char(0, limit).to_string()
    } else {
        text.to_string()
    }
}

/// The parts one after the other, with `separator` between each two of them.
pub open spec fn joined<T>(parts: Seq<Seq<T>>, separator: Seq<T>) -> Seq<T>
    decreases parts.len(),
{
    if parts.len() == 0 {
        Seq::empty()
    } else if parts.len() == 1 {
        parts.last()
    } else {
        joined(parts.drop_last(), separator) + separator + parts.last()
    }
}

/// The characters of each string of a list.
pub open spec fn texts(strings: Seq<String>) -> Seq<Seq<char>> {
    strings.map_values(|s: String| s@)
}

/// Joins strings with a separator.
pub fn join(parts: &Vec<String>, separator: &str) -> (result: String)
    ensures
        result@ == joined(texts(parts@), separator@),
{
    let mut result = String::new();
    let mut i: usize = 0;
    while i < parts.len()
        invariant
            i <= parts.len(),
            result@ == joined(texts(parts@).take(i as int), separator@),
        decreases parts.len() - i,
    {
        proof {
            let next = texts(parts@).take(i + 1);
            assert(next.drop_last() =~= texts(parts@).take(i as int));
            assert(next.last() == parts@[i as int]@);
        }
        if i > 0 {
            result.append(separator);
        }
        result.append(parts[i].as_str());
        i = i + 1;
    }
    assert(texts(parts@).take(i as int) =~= texts(parts@));
    result
}

/// Two spaces for each of `level` levels.
pub open spec fn indentation(level: nat) -> Seq<char> {
    Seq::new(2 * level, |i: int| ' ')
}

/// Writes the indentation of `level` levels.
pub fn indent(level: usize) -> (result: String)
    ensures
        result@ == indentation(level as nat),
{
    let mut result = String::new();
    let mut i: usize = 0;
    while i < level
        invariant
            i <= level,
            result@ == indentation(i as nat),
        decreases level - i,
    {
        proof {
            reveal_strlit("  ");
            assert(indentation(i as nat) + "  "@ =~= indentation((i + 1) as nat));
        }
        result.append("  ");
        i = i + 1;
    }
    result
}

/// Whether two texts hold the same characters.
pub fn same_text(a: &str, b: &str) -> (result: bool)
    ensures
        result == (a@ == b@),
{
    let left = a.as_bytes();
    let right = b.as_bytes();
    let result = same_bytes(left, right);
    proof {
        vstd::utf8::encode_utf8_decode_utf8(a@);
        vstd::utf8::encode_utf8_decode_utf8(b@);
    }
    result
}

/// Whether two slices hold the same bytes.
pub fn same_bytes(a: &[u8], b: &[u8]) -> (result: bool)
    ensures
        result == (a@ == b@),
{
    if a.len() != b.len() {
        return false;
    }
    let mut i: usize = 0;
    while i < a.len()
        invariant
            i <= a.len(),
            a.len() == b.len(),
            forall|j: int| 0 <= j < i ==> a@[j] == b@[j],
        decreases a.len() - i,
    {
        if a[i] != b[i] {
            return false;
        }
        i = i + 1;
    }
    assert(a@ =~= b@);
    true
}

/// A trimmed text is what stands between the first and the last character that is
/// no whitespace; all around it is whitespace, and none is left at its ends.
pub proof fn trimming_drops_outer_whitespace(text: Seq<char>) -> (bounds: (int, int))
    ensures
        0 <= bounds.0 <= bounds.1 <= text.len(),
        trimmed(text) == text.subrange(bounds.0, bounds.1),
        forall|i: int|
            0 <= i < text.len() && !(bounds.0 <= i < bounds.1) ==> is_whitespace(
                #[trigger] text[i],
            ),
        trimmed(text).len() > 0 ==> !is_whitespace(trimmed(text).first()) && !is_whitespace(
            trimmed(text).last(),
        ),
    decreases text.len(),
{
    if text.len() > 0 && is_whitespace(text.first()) {
        let rest = text.drop_first();
        let inner = trimming_drops_outer_whitespace(rest);
        let bounds = (inner.0 + 1, inner.1 + 1);
        assert(trimmed(text) =~= text.subrange(bounds.0, bounds.1));
        assert forall|i: int|
            0 <= i < text.len() && !(bounds.0 <= i < bounds.1) implies is_whitespace(
            #[trigger] text[i],
        ) by {
            if i > 0 {
                assert(rest[i - 1] == text[i]);
            }
        }
        bounds
    } else if text.len() > 0 && is_whitespace(text.last()) {
        let rest = text.drop_last();
        let bounds = trimming_drops_outer_whitespace(rest);
        assert(trimmed(text) =~= text.subrange(bounds.0, bounds.1));
        assert forall|i: int|
            0 <= i < text.len() && !(bounds.0 <= i < bounds.1) implies is_whitespace(
            #[trigger] text[i],
        ) by {
            if i < rest.len() {
                assert(rest[i] == text[i]);
            }
        }
        bounds
    } else {
        assert(text =~= text.subrange(0, text.len() as int));
        (0, text.len() as int)
    }
}

/// Nothing is left of a text after trimming exactly if it is all whitespace.
pub proof fn blank_texts_are_all_whitespace(text: Seq<char>)
    ensures
        trimmed(text).len() == 0 <==> forall|i: int|
            0 <= i < text.len() ==> is_whitespace(#[trigger] text[i]),
{
    let bounds = trimming_drops_outer_whitespace(text);
    if trimmed(text).len() > 0 {
        assert(trimmed(text).first() == text[bounds.0]);
    }
}

/// Trimming a trimmed text changes nothing.
pub proof fn trimming_twice_is_trimming_once(text: Seq<char>)
    ensures
        trimmed(trimmed(text)) == trimmed(text),
{
    let bounds = trimming_drops_outer_whitespace(text);
}

/// Whether a text holds no line break.
pub open spec fn is_one_line(text: Seq<char>) -> bool {
    forall|i: int| 0 <= i < text.len() ==> #[trigger] text[i] != '\n'
}

/// Lines that were joined can be told apart again: two lists of lines without line
/// breaks in them that give one text are equal.
pub proof fn joined_lines_can_be_told_apart(a: Seq<Seq<char>>, b: Seq<Seq<char>>)
    requires
        a.len() > 0,
        b.len() > 0,
        forall|i: int| 0 <= i < a.len() ==> is_one_line(#[trigger] a[i]),
        forall|i: int| 0 <= i < b.len() ==> is_one_line(#[trigger] b[i]),
        joined(a, "\n"@) == joined(b, "\n"@),
    ensures
        a == b,
    decreases a.len() + b.len(),
{
    reveal_strlit("\n");
    let text = joined(a, "\n"@);
    assert(is_one_line(a[a.len() - 1]) && is_one_line(b[b.len() - 1]));
    let last_a = a.last();
    let last_b = b.last();
    if a.len() == 1 && b.len() == 1 {
        assert(a =~= b);
    } else if a.len() == 1 {
        let head = joined(b.drop_last(), "\n"@);
        assert(text[head.len() as int] == '\n');
        assert(last_a[head.len() as int] == '\n');
    } else if b.len() == 1 {
        let head = joined(a.drop_last(), "\n"@);
        assert(text[head.len() as int] == '\n');
        assert(last_b[head.len() as int] == '\n');
    } else {
        let head_a = joined(a.drop_last(), "\n"@);
        let head_b = joined(b.drop_last(), "\n"@);
        assert(text == head_a + "\n"@ + last_a);
        assert(text == head_b + "\n"@ + last_b);
        assert(text[head_a.len() as int] == '\n');
        assert(text[head_b.len() as int] == '\n');
        if head_a.len() < head_b.len() {
            assert(text[head_b.len() as int] == last_a[head_b.len() - head_a.len() - 1]);
        } else if head_b.len() < head_a.len() {
            assert(text[head_a.len() as int] == last_b[head_a.len() - head_b.len() - 1]);
        }
        assert(head_a =~= text.take(head_a.len() as int));
        assert(head_b =~= text.take(head_b.len() as int));
        assert(last_a =~= text.skip(head_a.len() as int + 1));
        assert(last_b =~= text.skip(head_b.len() as int + 1));
        assert forall|i: int| 0 <= i < a.drop_last().len() implies is_one_line(
            #[trigger] a.drop_last()[i],
        ) by {
            assert(is_one_line(a[i]));
        }
        assert forall|i: int| 0 <= i < b.drop_last().len() implies is_one_line(
            #[trigger] b.drop_last()[i],
        ) by {
            assert(is_one_line(b[i]));
        }
        joined_lines_can_be_told_apart(a.drop_last(), b.drop_last());
        assert(a =~= a.drop_last().push(last_a));
        assert(b =~= b.drop_last().push(last_b));
    }
}

} // verus!
