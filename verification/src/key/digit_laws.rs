//! For which key the text in an XML keyfile stands.
use vstd::prelude::*;
use vstd::utf8::encode_utf8;

use crate::key::crates::{base64_decoded, hex_bytes, hex_value, is_hex};
use crate::key::keyfile::{
    compacted, is_separator, is_white, key_bytes, trimmed_end, trimmed_start,
};

verus! {

/// The value of a hexadecimal digit in either case, and -1 for any other character.
pub open spec fn nibble(c: char) -> int {
    if '0' <= c <= '9' {
        c as int - '0' as int
    } else if 'a' <= c <= 'f' {
        10 + (c as int - 'a' as int)
    } else if 'A' <= c <= 'F' {
        10 + (c as int - 'A' as int)
    } else {
        -1
    }
}

/// All characters are hexadecimal digits.
pub open spec fn all_digits(text: Seq<char>) -> bool {
    forall|i: int| 0 <= i < text.len() ==> nibble(#[trigger] text[i]) >= 0
}

/// All characters are white space: a tab, a line break, a space or one of the rarer ones.
pub open spec fn all_blank(text: Seq<char>) -> bool {
    forall|i: int| 0 <= i < text.len() ==> blank(#[trigger] text[i])
}

/// A character is white space.
pub open spec fn blank(c: char) -> bool {
    ||| c == ' ' || '\u{9}' <= c <= '\u{d}' || c == '\u{85}' || c == '\u{a0}' || c == '\u{1680}'
    ||| '\u{2000}' <= c <= '\u{200a}' || c == '\u{2028}' || c == '\u{2029}' || c == '\u{202f}'
    ||| c == '\u{205f}' || c == '\u{3000}'
}

/// A text is made of digits, with spaces, tabs and line breaks between them.
pub open spec fn spaced(text: Seq<char>, digits: Seq<char>) -> bool
    decreases text.len(),
{
    if text.len() == 0 {
        digits.len() == 0
    } else {
        let c = text.last();
        if c == ' ' || c == '\t' || c == '\n' || c == '\r' {
            spaced(text.drop_last(), digits)
        } else {
            digits.len() > 0 && digits.last() == c && spaced(text.drop_last(), digits.drop_last())
        }
    }
}

/// The version of keyfiles whose keys are hexadecimal.
pub open spec fn is_second_version(version: Option<Seq<char>>) -> bool {
    version == Some(seq!['2', '.', '0'])
}

/// The version is told by its text.
proof fn lemma_version(version: Option<Seq<char>>)
    ensures
        is_second_version(version) <==> version == Some("2.0"@),
{
    reveal_strlit("2.0");
    assert("2.0"@ =~= seq!['2', '.', '0']);
}

/// Characters are told apart as the library does.
proof fn lemma_characters(c: char)
    ensures
        is_white(c) <==> blank(c),
        is_separator(c) <==> c == ' ' || c == '\t' || c == '\n' || c == '\r',
        is_separator(c) ==> is_white(c),
        nibble(c) >= 0 ==> !is_white(c),
        nibble(c) >= 0 <==> hex_value(c) is Some,
        nibble(c) >= 0 ==> hex_value(c) == Some(nibble(c)) && nibble(c) < 16,
{
}

/// White space in front of a text does not count.
proof fn lemma_start(w: Seq<char>, t: Seq<char>)
    requires
        all_blank(w),
    ensures
        trimmed_start(w + t) == trimmed_start(t),
    decreases w.len(),
{
    if w.len() == 0 {
        assert(w + t =~= t);
    } else {
        assert((w + t)[0] == w[0]);
        lemma_characters(w[0]);
        assert((w + t).drop_first() =~= w.drop_first() + t);
        assert forall|i: int| 0 <= i < w.drop_first().len() implies blank(#[trigger] w.drop_first()[i]) by {
            assert(w.drop_first()[i] == w[i + 1]);
        }
        lemma_start(w.drop_first(), t);
    }
}

/// White space behind a text does not count.
proof fn lemma_end(t: Seq<char>, w: Seq<char>)
    requires
        all_blank(w),
    ensures
        trimmed_end(t + w) == trimmed_end(t),
    decreases w.len(),
{
    if w.len() == 0 {
        assert(t + w =~= t);
    } else {
        assert((t + w).last() == w.last());
        assert(w[w.len() - 1] == w.last());
        lemma_characters(w.last());
        assert((t + w).drop_last() =~= t + w.drop_last());
        assert forall|i: int| 0 <= i < w.drop_last().len() implies blank(#[trigger] w.drop_last()[i]) by {
            assert(w.drop_last()[i] == w[i]);
        }
        lemma_end(t, w.drop_last());
    }
}

/// What follows a text that is not blank is not touched when the start is trimmed.
proof fn lemma_start_stops(t: Seq<char>, w: Seq<char>)
    requires
        !all_blank(t),
    ensures
        trimmed_start(t + w) == trimmed_start(t) + w,
    decreases t.len(),
{
    let k = choose|k: int| 0 <= k < t.len() && !blank(#[trigger] t[k]);
    assert((t + w)[0] == t[0]);
    lemma_characters(t[0]);
    if is_white(t[0]) {
        let rest = t.drop_first();
        assert(rest[k - 1] == t[k]);
        assert(!all_blank(rest));
        assert((t + w).drop_first() =~= rest + w);
        lemma_start_stops(rest, w);
    }
}

/// Trimming removes nothing but separators from a text in which other white space does not occur.
proof fn lemma_trimmed_filter(t: Seq<char>)
    requires
        forall|i: int| 0 <= i < t.len() ==> is_separator(#[trigger] t[i]) || !is_white(t[i]),
    ensures
        trimmed_start(t).filter(|c: char| !is_separator(c)) == t.filter(|c: char| !is_separator(c)),
        trimmed_end(t).filter(|c: char| !is_separator(c)) == t.filter(|c: char| !is_separator(c)),
        forall|i: int|
            0 <= i < trimmed_start(t).len() ==> is_separator(#[trigger] trimmed_start(t)[i]) || !is_white(
                trimmed_start(t)[i],
            ),
    decreases t.len(),
{
    let keep = |c: char| !is_separator(c);
    reveal(Seq::filter);
    if t.len() > 0 {
        if is_white(t[0]) {
            let rest = t.drop_first();
            assert forall|i: int| 0 <= i < rest.len() implies is_separator(#[trigger] rest[i]) || !is_white(rest[i]) by {
                assert(rest[i] == t[i + 1]);
            }
            lemma_trimmed_filter(rest);
            assert(t =~= seq![t[0]] + rest);
            Seq::filter_distributes_over_add(seq![t[0]], rest, keep);
            assert(is_separator(t[0]));
            let one = seq![t[0]];
            assert(one.drop_last() =~= Seq::<char>::empty());
            assert(Seq::<char>::empty().filter(keep) =~= Seq::<char>::empty());
            assert(!keep(one.last()));
            assert(one.filter(keep) =~= Seq::<char>::empty());
            assert(t.filter(keep) =~= rest.filter(keep));
        }
        if is_white(t.last()) {
            let rest = t.drop_last();
            assert forall|i: int| 0 <= i < rest.len() implies is_separator(#[trigger] rest[i]) || !is_white(rest[i]) by {
                assert(rest[i] == t[i]);
            }
            lemma_trimmed_filter(rest);
            assert(is_separator(t[t.len() - 1]));
        }
    }
}

/// The digits of a spaced text are what is left when the separators are dropped.
proof fn lemma_spaced(text: Seq<char>, digits: Seq<char>)
    requires
        spaced(text, digits),
        all_digits(digits),
    ensures
        text.filter(|c: char| !is_separator(c)) == digits,
        forall|i: int| 0 <= i < text.len() ==> is_separator(#[trigger] text[i]) || nibble(text[i]) >= 0,
    decreases text.len(),
{
    reveal(Seq::filter);
    let keep = |c: char| !is_separator(c);
    if text.len() > 0 {
        let c = text.last();
        lemma_characters(c);
        if is_separator(c) {
            lemma_spaced(text.drop_last(), digits);
        } else {
            assert forall|i: int| 0 <= i < digits.drop_last().len() implies nibble(#[trigger] digits.drop_last()[i])
                >= 0 by {
                assert(digits.drop_last()[i] == digits[i]);
            }
            lemma_spaced(text.drop_last(), digits.drop_last());
            assert(digits[digits.len() - 1] == c);
            assert(digits.drop_last().push(c) =~= digits);
        }
        assert forall|i: int| 0 <= i < text.len() implies is_separator(#[trigger] text[i]) || nibble(text[i]) >= 0 by {
            if i < text.len() - 1 {
                assert(text.drop_last()[i] == text[i]);
            }
        }
    } else {
        assert(digits =~= Seq::<char>::empty());
    }
}

/// What is left of digits with space between and around them.
proof fn lemma_compacted(before: Seq<char>, core: Seq<char>, after: Seq<char>, digits: Seq<char>)
    requires
        all_blank(before),
        all_blank(after),
        spaced(core, digits),
        all_digits(digits),
    ensures
        compacted(before + core + after) == digits,
{
    let keep = |c: char| !is_separator(c);
    lemma_spaced(core, digits);
    assert(before + core + after =~= before + (core + after));
    lemma_start(before, core + after);
    assert forall|i: int| 0 <= i < core.len() implies is_separator(#[trigger] core[i]) || !is_white(core[i]) by {
        lemma_characters(core[i]);
    }
    if all_blank(core) {
        assert forall|i: int| 0 <= i < (core + after).len() implies blank(#[trigger] (core + after)[i]) by {
            if i >= core.len() {
                assert((core + after)[i] == after[i - core.len()]);
            } else {
                assert((core + after)[i] == core[i]);
            }
        }
        let none = Seq::<char>::empty();
        lemma_start(core + after, none);
        assert(core + after + none =~= core + after);
        assert(digits.len() == 0) by {
            if digits.len() > 0 {
                let all = core.filter(keep);
                assert(all[0] == digits[0]);
                core.lemma_filter_contains_rev(keep, digits[0]);
                assert(all.contains(digits[0]));
                lemma_characters(digits[0]);
                let i = choose|i: int| 0 <= i < core.len() && core[i] == digits[0];
                assert(blank(core[i]));
                lemma_characters(core[i]);
            }
        }
        reveal(Seq::filter);
        assert(digits =~= none);
        assert(trimmed_end(none) =~= none);
        assert(none.filter(keep) =~= none);
    } else {
        lemma_start_stops(core, after);
        lemma_end(trimmed_start(core), after);
        lemma_trimmed_filter(core);
        lemma_trimmed_filter(trimmed_start(core));
    }
}

/// Pairs of hexadecimal digits in a keyfile of version 2.0, of any number, with spaces, tabs and line
/// breaks between them and white space around them, are the bytes for which they stand.
pub proof fn hexadecimal_key_is_decoded(
    version: Option<Seq<char>>,
    before: Seq<char>,
    core: Seq<char>,
    after: Seq<char>,
    digits: Seq<char>,
)
    requires
        is_second_version(version),
        all_blank(before),
        all_blank(after),
        spaced(core, digits),
        all_digits(digits),
        digits.len() % 2 == 0,
    ensures
        ({
            let key = key_bytes(version, before + core + after);
            &&& key.len() == digits.len() / 2
            &&& forall|i: int|
                0 <= i < key.len() ==> #[trigger] key[i] == 16 * nibble(digits[2 * i]) + nibble(digits[2 * i + 1])
        }),
{
    lemma_version(version);
    lemma_compacted(before, core, after, digits);
    assert forall|i: int| 0 <= i < digits.len() implies hex_value(#[trigger] digits[i]) is Some by {
        lemma_characters(digits[i]);
    }
    assert(is_hex(digits));
    let key = key_bytes(version, before + core + after);
    assert(key == hex_bytes(digits));
    assert forall|i: int| 0 <= i < key.len() implies #[trigger] key[i] == 16 * nibble(digits[2 * i]) + nibble(
        digits[2 * i + 1],
    ) by {
        lemma_characters(digits[2 * i]);
        lemma_characters(digits[2 * i + 1]);
    }
}

/// An odd number of hexadecimal digits is no key: the text itself is taken for it.
pub proof fn odd_digits_are_taken_as_they_are(version: Option<Seq<char>>, core: Seq<char>, digits: Seq<char>)
    requires
        is_second_version(version),
        spaced(core, digits),
        all_digits(digits),
        digits.len() % 2 == 1,
    ensures
        key_bytes(version, core) == encode_utf8(core),
{
    let none = Seq::<char>::empty();
    lemma_version(version);
    lemma_compacted(none, core, none, digits);
    assert(none + core + none =~= core);
}

/// What is not white is not trimmed.
proof fn lemma_not_trimmed(t: Seq<char>, c: char)
    requires
        t.contains(c),
        !is_white(c),
    ensures
        trimmed_start(t).contains(c),
        trimmed_end(t).contains(c),
    decreases t.len(),
{
    let i = choose|i: int| 0 <= i < t.len() && t[i] == c;
    if is_white(t[0]) {
        assert(t.drop_first()[i - 1] == c);
        lemma_not_trimmed(t.drop_first(), c);
    }
    if is_white(t.last()) {
        assert(t.drop_last()[i] == c);
        lemma_not_trimmed(t.drop_last(), c);
    }
}

/// A text in which something stands that is neither a hexadecimal digit nor white space is taken as it
/// is.
pub proof fn other_text_is_taken_as_it_is(version: Option<Seq<char>>, value: Seq<char>, i: int)
    requires
        is_second_version(version),
        0 <= i < value.len(),
        nibble(value[i]) < 0,
        !blank(value[i]),
    ensures
        key_bytes(version, value) == encode_utf8(value),
{
    let c = value[i];
    let keep = |c: char| !is_separator(c);
    lemma_version(version);
    lemma_characters(c);
    assert(value.contains(c));
    lemma_not_trimmed(value, c);
    lemma_not_trimmed(trimmed_start(value), c);
    let core = trimmed_end(trimmed_start(value));
    let k = choose|k: int| 0 <= k < core.len() && core[k] == c;
    core.lemma_filter_contains(keep, k);
    assert(compacted(value).contains(c));
    let j = choose|j: int| 0 <= j < compacted(value).len() && compacted(value)[j] == c;
    assert(hex_value(compacted(value)[j]) is None);
}

/// In a keyfile of any other version, or of none, the text is Base64 for the key. Where it is not, it
/// is taken as it is.
pub proof fn other_versions_are_base64(version: Option<Seq<char>>, value: Seq<char>)
    requires
        !is_second_version(version),
    ensures
        base64_decoded(encode_utf8(value)) is Some ==> key_bytes(version, value) == base64_decoded(
            encode_utf8(value),
        )->0,
        base64_decoded(encode_utf8(value)) is None ==> key_bytes(version, value) == encode_utf8(value),
{
    lemma_version(version);
}

/// White space between digits that is neither a space nor a tab nor a line break is no separator: the
/// text is taken as it is.
pub proof fn rare_space_between_digits_does_not_separate(
    version: Option<Seq<char>>,
    before: Seq<char>,
    c: char,
    after: Seq<char>,
)
    requires
        is_second_version(version),
        before.len() > 0,
        nibble(before[0]) >= 0,
        after.len() > 0,
        nibble(after.last()) >= 0,
        nibble(c) < 0,
        c != ' ' && c != '\t' && c != '\n' && c != '\r',
    ensures
        key_bytes(version, before.push(c) + after) == encode_utf8(before.push(c) + after),
{
    let value = before.push(c) + after;
    let keep = |c: char| !is_separator(c);
    lemma_version(version);
    lemma_characters(c);
    lemma_characters(before[0]);
    lemma_characters(after.last());
    assert(value[0] == before[0]);
    assert(value.last() == after.last());
    assert(trimmed_start(value) == value);
    assert(trimmed_end(value) == value);
    assert(value[before.len() as int] == c);
    value.lemma_filter_contains(keep, before.len() as int);
    assert(compacted(value).contains(c));
    let j = choose|j: int| 0 <= j < compacted(value).len() && compacted(value)[j] == c;
    assert(hex_value(compacted(value)[j]) is None);
}

} // verus!
