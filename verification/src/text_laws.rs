//! What the operations on text do, place by place.

use vstd::prelude::*;
use vstd::utf8::{
    decode_utf8, encode_utf8, pop_first_scalar, valid_first_scalar, valid_utf8,
};

use crate::order::{
    byte_order, bytes_order, char_order, lex_precedes, part_order, path_order, text_order,
    PartName,
};
use crate::text::{
    capped, indentation, is_surrogate_at, joined, replaced, text_of_bytes, text_of_name, texts,
    without_surrogates, NameEncoding,
};

verus! {

/// The list of the characters of strings has one item for each string: all its
/// characters.
pub proof fn texts_hold_every_character(strings: Seq<String>)
    ensures
        texts(strings).len() == strings.len(),
        forall|i: int| 0 <= i < strings.len() ==> #[trigger] texts(strings)[i] == strings[i]@,
{
}

/// What a text becomes when characters are replaced is what its parts become, one
/// after the other; a character that is not replaced stays.
pub proof fn replacing_goes_character_by_character(
    a: Seq<char>,
    b: Seq<char>,
    c: char,
    from: char,
    to: Seq<char>,
)
    ensures
        replaced(a + b, from, to) == replaced(a, from, to) + replaced(b, from, to),
        replaced(seq![from], from, to) == to,
        c != from ==> replaced(seq![c], from, to) == seq![c],
        replaced(Seq::empty(), from, to).len() == 0,
    decreases b.len(),
{
    assert(seq![from].drop_last() =~= Seq::empty() && seq![c].drop_last() =~= Seq::empty());
    assert(replaced(seq![from].drop_last(), from, to) =~= Seq::empty());
    assert(replaced(seq![from], from, to) =~= to);
    assert(replaced(seq![c].drop_last(), from, to) =~= Seq::empty());
    if c != from {
        assert(replaced(seq![c], from, to) =~= seq![c]);
    }
    if b.len() == 0 {
        assert(a + b =~= a);
        assert(replaced(a, from, to) + replaced(b, from, to) =~= replaced(a, from, to));
    } else {
        replacing_goes_character_by_character(a, b.drop_last(), c, from, to);
        assert((a + b).drop_last() =~= a + b.drop_last());
        assert((a + b).last() == b.last());
        assert(replaced(a + b, from, to) =~= replaced(a, from, to) + replaced(b, from, to));
    }
}

/// Replacing one character by another changes that character wherever it stands,
/// and nothing else.
pub proof fn replacing_one_by_one_keeps_the_places(text: Seq<char>, from: char, to: char)
    ensures
        replaced(text, from, seq![to]).len() == text.len(),
        forall|i: int|
            0 <= i < text.len() ==> #[trigger] replaced(text, from, seq![to])[i] == if text[i]
                == from {
                to
            } else {
                text[i]
            },
    decreases text.len(),
{
    if text.len() > 0 {
        replacing_one_by_one_keeps_the_places(text.drop_last(), from, to);
    }
}

/// A cut text is the beginning of the text: all of it, or as much as the limit
/// allows.
pub proof fn cutting_keeps_the_beginning(text: Seq<char>, limit: nat)
    ensures
        capped(text, limit).len() == if text.len() <= limit {
            text.len()
        } else {
            limit
        },
        forall|i: int|
            0 <= i < capped(text, limit).len() ==> #[trigger] capped(text, limit)[i] == text[i],
{
}

/// Joined parts are the parts with the separator between each two: one part alone
/// is itself, and two lists that are joined have one separator between them.
pub proof fn joining_puts_separators_between<T>(
    part: Seq<T>,
    front: Seq<Seq<T>>,
    back: Seq<Seq<T>>,
    separator: Seq<T>,
)
    ensures
        joined(Seq::<Seq<T>>::empty(), separator) == Seq::<T>::empty(),
        joined(seq![part], separator) == part,
        front.len() > 0 && back.len() > 0 ==> joined(front + back, separator) == joined(
            front,
            separator,
        ) + separator + joined(back, separator),
    decreases back.len(),
{
    if front.len() > 0 && back.len() > 0 {
        let all = front + back;
        assert(all.drop_last() =~= front + back.drop_last());
        assert(all.last() == back.last());
        if back.len() == 1 {
            assert(all.drop_last() =~= front);
            assert(joined(all, separator) =~= joined(front, separator) + separator + joined(
                back,
                separator,
            ));
        } else {
            joining_puts_separators_between(part, front, back.drop_last(), separator);
            assert(joined(all, separator) =~= joined(front, separator) + separator + joined(
                back,
                separator,
            ));
        }
    }
}

/// An indentation is two spaces for each level, and nothing else.
pub proof fn indentations_are_two_spaces_a_level(level: nat)
    ensures
        indentation(level).len() == 2 * level,
        forall|i: int| 0 <= i < 2 * level ==> #[trigger] indentation(level)[i] == ' ',
{
}

/// Bytes without the encoding of a surrogate stay as they are.
pub proof fn other_bytes_stay(bytes: Seq<u8>)
    requires
        forall|i: int|
            0 <= i && i + 3 <= bytes.len() && #[trigger] bytes[i] == 0xed ==> bytes[i + 1] < 0xa0,
    ensures
        without_surrogates(bytes) == bytes,
    decreases bytes.len(),
{
    if bytes.len() > 0 {
        let rest = bytes.skip(1);
        assert forall|i: int| 0 <= i && i + 3 <= rest.len() && #[trigger] rest[i] == 0xed implies rest[
            i + 1] < 0xa0 by {
            assert(bytes[i + 1] == 0xed);
        }
        other_bytes_stay(rest);
        assert(bytes[0] == 0xed && 3 <= bytes.len() ==> bytes[1] < 0xa0);
        assert(!is_surrogate_at(bytes, 0));
        assert(seq![bytes[0]] + rest =~= bytes);
    }
}

/// The encoding of a surrogate gives way to that of U+FFFD: what stands before the
/// first one stays, and what follows is treated in the same way.
pub proof fn surrogates_are_replaced_one_by_one(
    before: Seq<u8>,
    second: u8,
    third: u8,
    after: Seq<u8>,
)
    requires
        forall|i: int| 0 <= i < before.len() ==> #[trigger] before[i] != 0xed,
        second >= 0xa0,
    ensures
        without_surrogates(before + seq![0xedu8, second, third] + after) == before + seq![
            0xefu8,
            0xbfu8,
            0xbdu8,
        ] + without_surrogates(after),
    decreases before.len(),
{
    let bytes = before + seq![0xedu8, second, third] + after;
    if before.len() == 0 {
        assert(is_surrogate_at(bytes, 0));
        assert(bytes.skip(3) =~= after);
        assert(before + seq![0xefu8, 0xbfu8, 0xbdu8] =~= seq![0xefu8, 0xbfu8, 0xbdu8]);
    } else {
        let rest = before.skip(1);
        assert(before[0] != 0xed && bytes[0] == before[0]);
        assert forall|i: int| 0 <= i < rest.len() implies #[trigger] rest[i] != 0xed by {
            assert(before[i + 1] != 0xed);
        }
        surrogates_are_replaced_one_by_one(rest, second, third, after);
        assert(bytes.skip(1) =~= rest + seq![0xedu8, second, third] + after);
        assert(before + seq![0xefu8, 0xbfu8, 0xbdu8] + without_surrogates(after) =~= seq![
            before[0],
        ] + (rest + seq![0xefu8, 0xbfu8, 0xbdu8] + without_surrogates(after)));
    }
}

proof fn lemma_valid_first_scalar_is_no_surrogate(bytes: Seq<u8>)
    requires
        bytes.len() > 0,
        valid_first_scalar(bytes),
    ensures
        bytes.len() >= 2 && bytes[0] == 0xed ==> bytes[1] < 0xa0,
{
    if bytes[0] == 0xed {
        let b1 = bytes[0];
        let b2 = bytes[1];
        let b3 = bytes[2];
        if b2 >= 0xa0 {
            assert(b2 <= 0xbf);
            assert(({
                let c = ((((b1 & 0x0f) as u32) << 12) | (((b2 & 0x3f) as u32) << 6)) | ((b3 & 0x3f) as u32);
                0xd800 <= c && c <= 0xdfff
            })) by (bit_vector)
                requires
                    b1 == 0xed,
                    b2 >= 0xa0,
                    b2 <= 0xbf,
            ;
        }
    }
}

proof fn lemma_valid_utf8_has_no_surrogates(bytes: Seq<u8>, i: int)
    requires
        valid_utf8(bytes),
        0 <= i,
        i + 3 <= bytes.len(),
        bytes[i] == 0xed,
    ensures
        bytes[i + 1] < 0xa0,
    decreases bytes.len(),
{
    lemma_valid_first_scalar_is_no_surrogate(bytes);
    let rest = pop_first_scalar(bytes);
    let n = bytes.len() - rest.len();
    if i > 0 {
        assert(i >= n) by {
            assert(0x80 <= bytes[1] <= 0xbf || n == 1);
        }
        assert(rest[i - n] == bytes[i]);
        lemma_valid_utf8_has_no_surrogates(rest, i - n);
    }
}

/// The text of valid UTF-8 is what it encodes, however names are kept: encoding
/// the text gives the bytes back.
pub proof fn valid_utf8_is_read_as_it_is(bytes: Seq<u8>, encoding: NameEncoding)
    requires
        valid_utf8(bytes),
    ensures
        encode_utf8(text_of_bytes(bytes)) == bytes,
        text_of_bytes(bytes) == decode_utf8(bytes),
        text_of_name(bytes, encoding) == decode_utf8(bytes),
{
    vstd::utf8::decode_utf8_encode_utf8(bytes);
    assert forall|i: int|
        0 <= i && i + 3 <= bytes.len() && #[trigger] bytes[i] == 0xed implies bytes[i + 1]
        < 0xa0 by {
        lemma_valid_utf8_has_no_surrogates(bytes, i);
    }
    other_bytes_stay(bytes);
}

/// What the text of bytes that are not valid UTF-8 is, as names are kept.
pub proof fn other_bytes_are_repaired(bytes: Seq<u8>)
    ensures
        !valid_utf8(bytes) ==> text_of_bytes(bytes) == crate::text::repaired_text(bytes),
        text_of_name(bytes, NameEncoding::Bytes) == text_of_bytes(bytes),
        text_of_name(bytes, NameEncoding::Wide) == text_of_bytes(without_surrogates(bytes)),
{
}

/// One list precedes another exactly if they agree up to some place where the first
/// ends and the second goes on, or where the first has the smaller item.
pub proof fn lists_are_ordered_at_the_first_difference<T>(
    a: Seq<T>,
    b: Seq<T>,
    lt: spec_fn(T, T) -> bool,
)
    ensures
        lex_precedes(a, b, lt) <==> exists|k: int|
            0 <= k <= a.len() && k < b.len() && #[trigger] a.take(k) == b.take(k) && (k == a.len()
                || (a[k] != b[k] && lt(a[k], b[k]))),
    decreases b.len(),
{
    if a.len() > 0 && b.len() > 0 {
        let (x, y) = (a.drop_first(), b.drop_first());
        lists_are_ordered_at_the_first_difference(x, y, lt);
        if a[0] == b[0] {
            if lex_precedes(x, y, lt) {
                let k = choose|k: int|
                    0 <= k <= x.len() && k < y.len() && #[trigger] x.take(k) == y.take(k) && (k
                        == x.len() || (x[k] != y[k] && lt(x[k], y[k])));
                assert(a.take(k + 1) =~= seq![a[0]] + x.take(k));
                assert(b.take(k + 1) =~= seq![b[0]] + y.take(k));
                assert(k < x.len() ==> a[k + 1] == x[k]);
                assert(b[k + 1] == y[k]);
            }
            if exists|k: int|
                0 <= k <= a.len() && k < b.len() && #[trigger] a.take(k) == b.take(k) && (k
                    == a.len() || (a[k] != b[k] && lt(a[k], b[k]))) {
                let k = choose|k: int|
                    0 <= k <= a.len() && k < b.len() && #[trigger] a.take(k) == b.take(k) && (k
                        == a.len() || (a[k] != b[k] && lt(a[k], b[k])));
                assert(k > 0);
                assert(x.take(k - 1) =~= a.take(k).drop_first());
                assert(y.take(k - 1) =~= b.take(k).drop_first());
                assert(k < a.len() ==> a[k] == x[k - 1]);
                assert(b[k] == y[k - 1]);
            }
        } else {
            if lt(a[0], b[0]) {
                assert(a.take(0) =~= b.take(0));
            }
            assert forall|k: int|
                0 < k <= a.len() && k < b.len() implies #[trigger] a.take(k) != b.take(k) by {
                assert(a.take(k)[0] == a[0] && b.take(k)[0] == b[0]);
            }
        }
    } else if a.len() == 0 && b.len() > 0 {
        assert(a.take(0) =~= b.take(0));
    }
}

/// One text precedes another exactly if they agree up to some place where the first
/// ends and the second goes on, or where the first has the smaller code point.
pub proof fn texts_are_ordered_by_code_points(a: Seq<char>, b: Seq<char>)
    ensures
        text_order()(a, b) <==> exists|k: int|
            0 <= k <= a.len() && k < b.len() && #[trigger] a.take(k) == b.take(k) && (k == a.len()
                || (a[k] as int) < (b[k] as int)),
{
    lists_are_ordered_at_the_first_difference(a, b, char_order());
    if text_order()(a, b) {
        let k = choose|k: int|
            0 <= k <= a.len() && k < b.len() && #[trigger] a.take(k) == b.take(k) && (k == a.len()
                || (a[k] != b[k] && char_order()(a[k], b[k])));
        assert(a.take(k) == b.take(k));
    }
    if exists|k: int|
        0 <= k <= a.len() && k < b.len() && #[trigger] a.take(k) == b.take(k) && (k == a.len() || (
        a[k] as int) < (b[k] as int)) {
        let k = choose|k: int|
            0 <= k <= a.len() && k < b.len() && #[trigger] a.take(k) == b.take(k) && (k == a.len()
                || (a[k] as int) < (b[k] as int));
        assert(a.take(k) == b.take(k));
        assert(k < a.len() ==> char_order()(a[k], b[k]));
    }
}

/// The parts of paths stand in the order of what they are: prefix, root, the
/// directory itself, the one above, names; prefixes and names among each other stand
/// as their bytes do.
pub proof fn parts_are_ordered_by_what_they_are(x: Seq<u8>, y: Seq<u8>)
    ensures
        part_order()(PartName::Prefix(x), PartName::Root),
        part_order()(PartName::Root, PartName::Here),
        part_order()(PartName::Here, PartName::Up),
        part_order()(PartName::Up, PartName::Name(y)),
        part_order()(PartName::Prefix(x), PartName::Prefix(y)) <==> bytes_order()(x, y),
        part_order()(PartName::Name(x), PartName::Name(y)) <==> bytes_order()(x, y),
        bytes_order()(x, y) <==> exists|k: int|
            0 <= k <= x.len() && k < y.len() && #[trigger] x.take(k) == y.take(k) && (k == x.len()
                || x[k] < y[k]),
{
    lists_are_ordered_at_the_first_difference(x, y, byte_order());
    if bytes_order()(x, y) {
        let k = choose|k: int|
            0 <= k <= x.len() && k < y.len() && #[trigger] x.take(k) == y.take(k) && (k == x.len()
                || (x[k] != y[k] && byte_order()(x[k], y[k])));
        assert(x.take(k) == y.take(k));
    }
    if exists|k: int|
        0 <= k <= x.len() && k < y.len() && #[trigger] x.take(k) == y.take(k) && (k == x.len()
            || x[k] < y[k]) {
        let k = choose|k: int|
            0 <= k <= x.len() && k < y.len() && #[trigger] x.take(k) == y.take(k) && (k == x.len()
                || x[k] < y[k]);
        assert(x.take(k) == y.take(k));
        assert(k < x.len() ==> byte_order()(x[k], y[k]));
    }
}

/// One path precedes another exactly if they agree up to some part where the first
/// ends and the second goes on, or where the first has the smaller part.
pub proof fn paths_are_ordered_part_by_part(a: Seq<PartName>, b: Seq<PartName>)
    ensures
        path_order()(a, b) <==> exists|k: int|
            0 <= k <= a.len() && k < b.len() && #[trigger] a.take(k) == b.take(k) && (k == a.len()
                || (a[k] != b[k] && part_order()(a[k], b[k]))),
{
    lists_are_ordered_at_the_first_difference(a, b, part_order());
}

} // verus!
