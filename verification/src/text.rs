//! Text of a source file: slices by byte offset, name decoration, comparison.

use vstd::prelude::*;
use vstd::string::*;
use vstd::utf8::*;

verus! {

/// The text of the bytes from `start` to `end`, or `None` where those bytes do not lie
/// in `src` or are not UTF-8 by themselves.
pub open spec fn text_between(src: Seq<char>, start: int, end: int) -> Option<Seq<char>> {
    let bytes = encode_utf8(src);
    if 0 <= start <= end <= bytes.len() && valid_utf8(bytes.subrange(start, end)) {
        Some(decode_utf8(bytes.subrange(start, end)))
    } else {
        None
    }
}

/// No bytes are no text.
pub proof fn text_takes_bytes(src: Seq<char>, start: int, end: int)
    ensures
        text_between(src, start, end) matches Some(text) ==> text.len() > 0 ==> start < end,
{
    if 0 <= start == end <= encode_utf8(src).len() {
        let empty = Seq::<char>::empty();
        encode_utf8_decode_utf8(empty);
        assert(encode_utf8(src).subrange(start, end) =~= Seq::<u8>::empty());
        assert(encode_utf8(empty) =~= Seq::<u8>::empty());
    }
}

/// A stretch of valid UTF-8 that is valid by itself ends and starts at character boundaries.
proof fn lemma_valid_stretch_has_boundaries(bytes: Seq<u8>, start: int, end: int)
    requires
        valid_utf8(bytes),
        0 <= start < end <= bytes.len(),
        valid_utf8(bytes.subrange(start, end)),
    ensures
        is_char_boundary(bytes, start),
        is_char_boundary(bytes, end),
{
    let stretch = bytes.subrange(start, end);
    assert(!is_continuation_byte(stretch[0]));
    is_char_boundary_iff_not_is_continuation_byte(bytes, start);
    if end == bytes.len() {
        is_char_boundary_start_end_of_seq(bytes);
    } else {
        valid_utf8_split(bytes, start);
        let tail = bytes.subrange(start, bytes.len() as int);
        assert(valid_utf8(tail));
        assert(tail.subrange(0, end - start) =~= stretch);
        if !valid_utf8(tail.subrange(end - start, tail.len() as int)) {
            partial_valid_partial_invalid_utf8(tail, end - start);
        }
        let rest = tail.subrange(end - start, tail.len() as int);
        assert(valid_utf8(rest));
        assert(!is_continuation_byte(rest[0]));
        assert(rest[0] == bytes[end]);
        is_char_boundary_iff_not_is_continuation_byte(bytes, end);
    }
}

/// The stretch between two character boundaries is valid UTF-8.
proof fn lemma_boundaries_give_valid_stretch(bytes: Seq<u8>, start: int, end: int)
    requires
        valid_utf8(bytes),
        0 <= start <= end <= bytes.len(),
        is_char_boundary(bytes, start),
        is_char_boundary(bytes, end),
    ensures
        valid_utf8(bytes.subrange(start, end)),
        valid_utf8(bytes.subrange(0, end)),
        is_char_boundary(bytes.subrange(0, end), start),
{
    valid_utf8_split(bytes, end);
    let head = bytes.subrange(0, end);
    assert(valid_utf8(head));
    if start == end {
        is_char_boundary_start_end_of_seq(head);
    } else {
        is_char_boundary_iff_not_is_continuation_byte(bytes, start);
        assert(head[start] == bytes[start]);
        is_char_boundary_iff_not_is_continuation_byte(head, start);
    }
    valid_utf8_split(head, start);
    assert(head.subrange(start, head.len() as int) =~= bytes.subrange(start, end));
}

/// Returns the text of the bytes from `start` to `end` of `src`.
pub fn slice_text(src: &str, start: usize, end: usize) -> (res: Option<&str>)
    ensures
        (match res {
            Some(text) => text_between(src@, start as int, end as int) == Some(text@),
            None => text_between(src@, start as int, end as int) is None,
        }),
{
    broadcast use encode_utf8_valid_utf8, encode_utf8_decode_utf8;

    let ghost bytes = encode_utf8(src@);
    if start > end || end > src.as_bytes().len() {
        return None;
    }
    if start == end {
        let empty: &str = "";
        proof {
            reveal_strlit("");
            assert(bytes.subrange(start as int, end as int) =~= Seq::<u8>::empty());
            assert(empty@ =~= Seq::<char>::empty());
        }
        return Some(empty);
    }
    if !src.is_char_boundary(start) || !src.is_char_boundary(end) {
        proof {
            if valid_utf8(bytes.subrange(start as int, end as int)) {
                lemma_valid_stretch_has_boundaries(bytes, start as int, end as int);
            }
        }
        return None;
    }
    proof {
        lemma_boundaries_give_valid_stretch(bytes, start as int, end as int);
    }
    let head: &str = src.split_at(end).0;
    let text: &str = head.split_at(start).1;
    proof {
        assert(text.spec_bytes() =~= bytes.subrange(start as int, end as int));
        assert(decode_utf8(encode_utf8(text@)) == text@);
    }
    Some(text)
}

/// Tells whether two texts are the same.
pub fn same_text(a: &str, b: &str) -> (res: bool)
    ensures
        res == (a@ == b@),
{
    let left = a.as_bytes();
    let right = b.as_bytes();
    if left.len() != right.len() {
        return false;
    }
    let mut i: usize = 0;
    while i < left.len()
        invariant
            left@ == encode_utf8(a@),
            right@ == encode_utf8(b@),
            left@.len() == right@.len(),
            i <= left@.len(),
            forall|k: int| 0 <= k < i ==> left@[k] == right@[k],
        decreases left@.len() - i,
    {
        if left[i] != right[i] {
            return false;
        }
        i += 1;
    }
    proof {
        assert(left@ =~= right@);
        encode_utf8_decode_utf8(a@);
        encode_utf8_decode_utf8(b@);
    }
    true
}

/// Whether a character counts as upper case: what `char::is_uppercase` returns.
pub uninterp spec fn is_upper_case(c: char) -> bool;

/// Whether a character counts as white space: what `char::is_whitespace` returns.
pub uninterp spec fn is_white_space(c: char) -> bool;

/// Calls `char::is_uppercase`, which looks the character up in the Unicode property
/// `Uppercase`; the answer depends on the character alone. Of the ASCII characters, the
/// letters from `A` to `Z` have that property.
#[verifier::external_body]
fn char_is_uppercase(c: char) -> (res: bool)
    ensures
        res == is_upper_case(c),
        c <= '\u{7f}' ==> res == ('A' <= c <= 'Z'),
{
    c.is_uppercase()
}

/// Calls `char::is_whitespace`, which looks the character up in the Unicode property
/// `White_Space`; the answer depends on the character alone. Of the ASCII characters, the
/// space and those from the tab to the carriage return have that property.
#[verifier::external_body]
fn char_is_whitespace(c: char) -> (res: bool)
    ensures
        res == is_white_space(c),
        c <= '\u{7f}' ==> res == (c == ' ' || '\t' <= c <= '\r'),
{
    c.is_whitespace()
}

/// A class of characters that can be stripped from the ends of a text.
#[derive(Clone, Copy, Debug)]
pub enum CharClass {
    Just(char),
    WhiteSpace,
}

impl CharClass {
    pub open spec fn has(self, c: char) -> bool {
        match self {
            CharClass::Just(d) => c == d,
            CharClass::WhiteSpace => is_white_space(c),
        }
    }

    fn contains(self, c: char) -> (res: bool)
        ensures
            res == self.has(c),
    {
        match self {
            CharClass::Just(d) => c == d,
            CharClass::WhiteSpace => char_is_whitespace(c),
        }
    }
}

/// `s` without the longest prefix of characters of `class`.
pub open spec fn strip_front(s: Seq<char>, class: CharClass) -> Seq<char>
    decreases s.len(),
{
    if s.len() > 0 && class.has(s[0]) {
        strip_front(s.drop_first(), class)
    } else {
        s
    }
}

/// `s` without the longest suffix of characters of `class`.
pub open spec fn strip_back(s: Seq<char>, class: CharClass) -> Seq<char>
    decreases s.len(),
{
    if s.len() > 0 && class.has(s.last()) {
        strip_back(s.drop_last(), class)
    } else {
        s
    }
}

/// The characters of a text, in order.
fn chars_of(s: &str) -> (res: Vec<char>)
    ensures
        res@ == s@,
{
    let mut res: Vec<char> = Vec::new();
    for c in iter: s.chars()
        invariant
            res@ == s@.take(iter.index() as int),
            iter.seq() == s@,
    {
        res.push(c);
    }
    proof {
        assert(s@.take(s@.len() as int) =~= s@);
    }
    res
}

/// Returns `s` without its leading characters of `class`.
fn strip_start(s: &str, class: CharClass) -> (res: &str)
    ensures
        res@ == strip_front(s@, class),
{
    let chars = chars_of(s);
    let mut from: usize = 0;
    assert(s@.skip(0) =~= s@);
    while from < chars.len() && class.contains(chars[from])
        invariant
            chars@ == s@,
            from <= chars@.len(),
            strip_front(s@, class) == strip_front(s@.skip(from as int), class),
        decreases chars@.len() - from,
    {
        assert(s@.skip(from as int).drop_first() =~= s@.skip(from + 1));
        from += 1;
    }
    assert(s@.subrange(from as int, s@.len() as int) =~= s@.skip(from as int));
    s.substring_char(from, chars.len())
}

/// Returns `s` without its trailing characters of `class`.
fn strip_end(s: &str, class: CharClass) -> (res: &str)
    ensures
        res@ == strip_back(s@, class),
{
    let chars = chars_of(s);
    let mut to: usize = chars.len();
    assert(s@.take(s@.len() as int) =~= s@);
    while to > 0 && class.contains(chars[to - 1])
        invariant
            chars@ == s@,
            to <= chars@.len(),
            strip_back(s@, class) == strip_back(s@.take(to as int), class),
        decreases to,
    {
        assert(s@.take(to as int).drop_last() =~= s@.take(to - 1));
        to -= 1;
    }
    assert(s@.subrange(0, to as int) =~= s@.take(to as int));
    s.substring_char(0, to)
}

/// A name as it is written in a Tonel file, without its decoration.
pub open spec fn normalized(raw: Seq<char>) -> Seq<char> {
    strip_back(
        strip_front(strip_front(raw, CharClass::Just('#')), CharClass::Just('\'')),
        CharClass::Just('\''),
    )
}

/// Strip Tonel name decoration and return a plain class name.
///
/// Handles all three forms that Tonel allows for `#name`:
///   `#ClassName`    -> `ClassName`
///   `#'ClassName'`  -> `ClassName`
///   `'ClassName'`   -> `ClassName`
///   `ClassName`     -> `ClassName` (identifier, no-op)
pub fn normalize_class_name(raw: &str) -> (res: &str)
    ensures
        res@ == normalized(raw@),
{
    let symbol = strip_start(raw, CharClass::Just('#'));
    strip_end(strip_start(symbol, CharClass::Just('\'')), CharClass::Just('\''))
}

/// `raw` without white space at either end.
pub open spec fn trimmed(raw: Seq<char>) -> Seq<char> {
    strip_back(strip_front(raw, CharClass::WhiteSpace), CharClass::WhiteSpace)
}

/// Returns `raw` without white space at either end.
pub fn trim_text(raw: &str) -> (res: &str)
    ensures
        res@ == trimmed(raw@),
{
    strip_end(strip_start(raw, CharClass::WhiteSpace), CharClass::WhiteSpace)
}

/// Whether a text starts with an upper-case character.
pub open spec fn capitalized(s: Seq<char>) -> bool {
    s.len() > 0 && is_upper_case(s[0])
}

/// Tells whether `s` starts with an upper-case character.
pub fn is_capitalized(s: &str) -> (res: bool)
    ensures
        res == capitalized(s@),
        s@.len() > 0 && s@[0] <= '\u{7f}' ==> res == ('A' <= s@[0] <= 'Z'),
{
    if s.is_empty() {
        false
    } else {
        char_is_uppercase(s.get_char(0))
    }
}

/// The first `count` characters of a text, all of them where it has no more.
pub open spec fn shortened(s: Seq<char>, count: int) -> Seq<char> {
    if s.len() <= count {
        s
    } else {
        s.take(count)
    }
}

/// Returns the first `count` characters of `s`, all of them where it has no more.
pub fn shorten(s: &str, count: usize) -> (res: &str)
    ensures
        res@ == shortened(s@, count as int),
{
    if s.unicode_len() <= count {
        s
    } else {
        assert(s@.subrange(0, count as int) =~= s@.take(count as int));
        s.substring_char(0, count)
    }
}

/// Whether `a` comes before `b` in the order of their characters, or is the same.
pub open spec fn text_le(a: Seq<char>, b: Seq<char>) -> bool
    decreases a.len(),
{
    if a.len() == 0 {
        true
    } else if b.len() == 0 {
        false
    } else if a[0] != b[0] {
        a[0] < b[0]
    } else {
        text_le(a.drop_first(), b.drop_first())
    }
}

/// Tells whether `a` comes before `b`, or is the same.
pub fn text_precedes(a: &str, b: &str) -> (res: bool)
    ensures
        res == text_le(a@, b@),
{
    let left = chars_of(a);
    let right = chars_of(b);
    let mut i: usize = 0;
    assert(a@.skip(0) =~= a@);
    assert(b@.skip(0) =~= b@);
    while i < left.len() && i < right.len()
        invariant
            left@ == a@,
            right@ == b@,
            i <= left@.len(),
            i <= right@.len(),
            text_le(a@, b@) == text_le(a@.skip(i as int), b@.skip(i as int)),
        decreases left@.len() - i,
    {
        if left[i] != right[i] {
            return left[i] < right[i];
        }
        assert(a@.skip(i as int).drop_first() =~= a@.skip(i + 1));
        assert(b@.skip(i as int).drop_first() =~= b@.skip(i + 1));
        i += 1;
    }
    i == left.len()
}

/// The order of texts is reflexive.
pub proof fn text_order_is_reflexive(a: Seq<char>)
    ensures
        text_le(a, a),
    decreases a.len(),
{
    if a.len() > 0 {
        text_order_is_reflexive(a.drop_first());
    }
}

/// The order of texts is total.
pub proof fn text_order_is_total(a: Seq<char>, b: Seq<char>)
    ensures
        text_le(a, b) || text_le(b, a),
    decreases a.len(),
{
    if a.len() > 0 && b.len() > 0 && a[0] == b[0] {
        text_order_is_total(a.drop_first(), b.drop_first());
    }
}

/// Two texts that precede each other are the same.
pub proof fn text_order_is_antisymmetric(a: Seq<char>, b: Seq<char>)
    requires
        text_le(a, b),
        text_le(b, a),
    ensures
        a == b,
    decreases a.len(),
{
    if a.len() > 0 && b.len() > 0 {
        text_order_is_antisymmetric(a.drop_first(), b.drop_first());
        assert(a =~= seq![a[0]] + a.drop_first());
        assert(b =~= seq![b[0]] + b.drop_first());
    } else {
        assert(a =~= b);
    }
}

/// The order of texts is transitive.
pub proof fn text_order_is_transitive(a: Seq<char>, b: Seq<char>, c: Seq<char>)
    requires
        text_le(a, b),
        text_le(b, c),
    ensures
        text_le(a, c),
    decreases a.len(),
{
    if a.len() > 0 && b.len() > 0 && c.len() > 0 && a[0] == b[0] && b[0] == c[0] {
        text_order_is_transitive(a.drop_first(), b.drop_first(), c.drop_first());
    }
}

/// Whether a name carries no decoration of its own at its ends.
pub open spec fn is_plain_name(name: Seq<char>) -> bool {
    name.len() > 0 ==> name[0] != '#' && name[0] != '\'' && name.last() != '\''
}

/// Stripping takes off a character of the class in front, and then what is left of it.
proof fn lemma_strip_front_step(c: char, s: Seq<char>, class: CharClass)
    ensures
        class.has(c) ==> strip_front(seq![c] + s, class) == strip_front(s, class),
        !class.has(c) ==> strip_front(seq![c] + s, class) == seq![c] + s,
{
    assert((seq![c] + s).drop_first() =~= s);
}

/// Stripping takes off a character of the class at the back, and then what is left of it.
proof fn lemma_strip_back_step(s: Seq<char>, c: char, class: CharClass)
    ensures
        class.has(c) ==> strip_back(s.push(c), class) == strip_back(s, class),
{
    assert(s.push(c).drop_last() =~= s);
}

/// All the forms that a class name may be written in stand for the same plain name.
pub proof fn written_forms_of_a_name(name: Seq<char>)
    requires
        is_plain_name(name),
    ensures
        normalized(name) == name,
        normalized(seq!['#'] + name) == name,
        normalized(seq!['\''] + name.push('\'')) == name,
        normalized(seq!['#'] + (seq!['\''] + name.push('\''))) == name,
{
    let hash = CharClass::Just('#');
    let quote = CharClass::Just('\'');
    lemma_strip_front_step('#', name, hash);
    let quoted = seq!['\''] + name.push('\'');
    lemma_strip_front_step('\'', name.push('\''), hash);
    lemma_strip_front_step('\'', name.push('\''), quote);
    lemma_strip_front_step('#', quoted, hash);
    lemma_strip_back_step(name, '\'', quote);
    if name.len() == 0 {
        assert(name.push('\'') =~= seq!['\''] + name);
        lemma_strip_front_step('\'', name, quote);
    } else {
        assert(name.push('\'')[0] == name[0]);
    }
}

/// Stripping a class off the front leaves a tail of the text that starts with no
/// character of that class.
proof fn lemma_strip_front_result(s: Seq<char>, class: CharClass)
    ensures
        strip_front(s, class).len() > 0 ==> !class.has(strip_front(s, class)[0]),
    decreases s.len(),
{
    if s.len() > 0 && class.has(s[0]) {
        lemma_strip_front_result(s.drop_first(), class);
    }
}

/// Stripping a class off the back leaves a head of the text that ends in no character
/// of that class.
proof fn lemma_strip_back_result(s: Seq<char>, class: CharClass)
    ensures
        strip_back(s, class).len() > 0 ==> !class.has(strip_back(s, class).last()),
        strip_back(s, class).len() > 0 ==> strip_back(s, class)[0] == s[0],
    decreases s.len(),
{
    if s.len() > 0 && class.has(s.last()) {
        lemma_strip_back_result(s.drop_last(), class);
    }
}

/// A normalized name neither starts nor ends with a quote.
pub proof fn normalized_name_has_no_outer_quotes(raw: Seq<char>)
    ensures
        normalized(raw).len() > 0 ==> normalized(raw)[0] != '\'' && normalized(raw).last()
            != '\'',
{
    let quote = CharClass::Just('\'');
    let symbol = strip_front(raw, CharClass::Just('#'));
    lemma_strip_front_result(symbol, quote);
    lemma_strip_back_result(strip_front(symbol, quote), quote);
}

} // verus!
