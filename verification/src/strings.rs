//! Plain text helpers: white space, joining, truncation and decimal numbers.

use vstd::prelude::*;
use vstd::string::*;

verus! {

/// `String::push` appends the given character to the end of the string.
pub assume_specification[ String::push ](text: &mut String, c: char)
    ensures
        final(text)@ == old(text)@.push(c),
;

/// The characters of `text`, for indexed access.
pub fn chars_of(text: &str) -> (chars: Vec<char>)
    ensures
        chars@ == text@,
{
    let mut chars: Vec<char> = Vec::new();
    for c in it: text.chars()
        invariant
            it.seq() == text@,
            chars@ == text@.take(it.index() as int),
    {
        chars.push(c);
        assert(text@.take(it.index() + 1) =~= text@.take(it.index() as int).push(c));
    }
    assert(text@.take(text@.len() as int) =~= text@);
    chars
}

/// The first `cap` characters of `text`, or all of it when it is shorter.
pub open spec fn truncated(text: Seq<char>, cap: nat) -> Seq<char> {
    if text.len() <= cap {
        text
    } else {
        text.take(cap as int)
    }
}

/// Keeps at most the first `cap` characters of `text`.
pub fn truncate(text: &str, cap: usize) -> (short: String)
    ensures
        short@ == truncated(text@, cap as nat),
{
    let mut short = String::new();
    let mut room: usize = cap;
    for c in it: text.chars()
        invariant
            it.seq() == text@,
            room + it.index() == cap,
            short@ == text@.take(it.index() as int),
    {
        if room == 0 {
            return short;
        }
        short.push(c);
        room = room - 1;
        assert(text@.take(it.index() + 1) =~= text@.take(it.index() as int).push(c));
    }
    assert(text@.take(text@.len() as int) =~= text@);
    short
}

/// The characters of Unicode's White_Space property.
pub open spec fn is_white(c: char) -> bool {
    ||| '\u{9}' <= c <= '\u{d}'
    ||| c == ' '
    ||| c == '\u{85}'
    ||| c == '\u{a0}'
    ||| c == '\u{1680}'
    ||| '\u{2000}' <= c <= '\u{200a}'
    ||| c == '\u{2028}'
    ||| c == '\u{2029}'
    ||| c == '\u{202f}'
    ||| c == '\u{205f}'
    ||| c == '\u{3000}'
}

/// Whether `c` has Unicode's White_Space property.
pub fn is_whitespace(c: char) -> (white: bool)
    ensures
        white == is_white(c),
{
    ('\u{9}' <= c && c <= '\u{d}') || c == ' ' || c == '\u{85}' || c == '\u{a0}' || c == '\u{1680}'
        || ('\u{2000}' <= c && c <= '\u{200a}') || c == '\u{2028}' || c == '\u{2029}' || c
        == '\u{202f}' || c == '\u{205f}' || c == '\u{3000}'
}

/// The characters of each string of a list.
pub open spec fn texts(parts: Seq<String>) -> Seq<Seq<char>> {
    Seq::new(parts.len(), |i: int| parts[i]@)
}

/// The parts one after the other, with `sep` between neighbours.
pub open spec fn joined(parts: Seq<Seq<char>>, sep: Seq<char>) -> Seq<char>
    decreases parts.len(),
{
    if parts.len() == 0 {
        Seq::empty()
    } else if parts.len() == 1 {
        parts[0]
    } else {
        joined(parts.drop_last(), sep) + sep + parts.last()
    }
}

/// Joins `parts` with `sep` between neighbours.
pub fn join(parts: &[String], sep: &str) -> (text: String)
    ensures
        text@ == joined(texts(parts@), sep@),
{
    let mut text = String::new();
    let mut i: usize = 0;
    while i < parts.len()
        invariant
            i <= parts@.len(),
            text@ == joined(texts(parts@).take(i as int), sep@),
        decreases parts@.len() - i,
    {
        if i > 0 {
            text.append(sep);
        }
        text.append(parts[i].as_str());
        i = i + 1;
        proof {
            let now = texts(parts@).take(i as int);
            assert(now.drop_last() =~= texts(parts@).take(i - 1));
            assert(now.last() == parts@[i - 1]@);
        }
    }
    assert(texts(parts@).take(parts@.len() as int) =~= texts(parts@));
    text
}

/// The length of the leading run of characters that are not white space.
pub open spec fn word_len(text: Seq<char>) -> nat
    decreases text.len(),
{
    if text.len() == 0 || is_white(text[0]) {
        0
    } else {
        1 + word_len(text.drop_first())
    }
}

/// The maximal runs of characters that are not white space, in order.
pub open spec fn words(text: Seq<char>) -> Seq<Seq<char>>
    decreases text.len(),
    via words_decreases
{
    if text.len() == 0 {
        Seq::empty()
    } else if is_white(text[0]) {
        words(text.drop_first())
    } else {
        let n = word_len(text) as int;
        seq![text.take(n)] + words(text.skip(n))
    }
}

#[via_fn]
proof fn words_decreases(text: Seq<char>) {
    lemma_word_len(text);
}

/// The words of `text` with one space between neighbours.
pub open spec fn collapsed(text: Seq<char>) -> Seq<char> {
    joined(words(text), seq![' '])
}

proof fn lemma_joined_cons(first: Seq<char>, rest: Seq<Seq<char>>, sep: Seq<char>)
    ensures
        joined(seq![first] + rest, sep) == if rest.len() == 0 {
            first
        } else {
            first + sep + joined(rest, sep)
        },
    decreases rest.len(),
{
    let all = seq![first] + rest;
    if rest.len() == 0 {
        assert(all[0] == first);
    } else {
        assert(all.drop_last() =~= seq![first] + rest.drop_last());
        assert(all.last() == rest.last());
        lemma_joined_cons(first, rest.drop_last(), sep);
        if rest.len() > 1 {
            assert(joined(all, sep) =~= first + sep + joined(rest, sep));
        } else {
            assert(rest.drop_last().len() == 0);
            assert(joined(all, sep) =~= first + sep + joined(rest, sep));
        }
    }
}

/// What remains to be written after a complete word, when `rest` is unread.
spec fn after_word(rest: Seq<char>) -> Seq<char> {
    if words(rest).len() == 0 {
        Seq::empty()
    } else {
        seq![' '] + collapsed(rest)
    }
}

/// What remains to be written inside a word, when `rest` is unread.
spec fn inside_word(rest: Seq<char>) -> Seq<char> {
    rest.take(word_len(rest) as int) + after_word(rest.skip(word_len(rest) as int))
}

proof fn lemma_collapse_step(rest: Seq<char>)
    requires
        rest.len() > 0,
    ensures
        is_white(rest[0]) ==> {
            &&& inside_word(rest) == after_word(rest.drop_first())
            &&& after_word(rest) == after_word(rest.drop_first())
            &&& collapsed(rest) == collapsed(rest.drop_first())
        },
        !is_white(rest[0]) ==> {
            &&& inside_word(rest) == seq![rest[0]] + inside_word(rest.drop_first())
            &&& after_word(rest) == seq![' ', rest[0]] + inside_word(rest.drop_first())
            &&& collapsed(rest) == seq![rest[0]] + inside_word(rest.drop_first())
        },
{
    let tail = rest.drop_first();
    lemma_word_len(rest);
    lemma_word_len(tail);
    if is_white(rest[0]) {
        assert(rest.take(0) =~= Seq::<char>::empty());
        assert(rest.skip(0) =~= rest);
        assert(inside_word(rest) =~= after_word(tail));
    } else {
        let n = word_len(rest) as int;
        assert(rest.take(n) =~= seq![rest[0]] + tail.take(n - 1));
        assert(rest.skip(n) =~= tail.skip(n - 1));
        lemma_joined_cons(rest.take(n), words(rest.skip(n)), seq![' ']);
        assert(inside_word(rest) =~= seq![rest[0]] + inside_word(tail));
        assert(collapsed(rest) =~= rest.take(n) + after_word(rest.skip(n)));
        assert(words(rest).len() > 0);
        assert(after_word(rest) =~= seq![' ', rest[0]] + inside_word(tail));
    }
}

/// Reduces every run of white space to one space and drops it at both ends.
pub fn collapse_whitespace(text: &str) -> (line: String)
    ensures
        line@ == collapsed(text@),
{
    let mut line = String::new();
    let mut started: bool = false;
    let mut in_word: bool = false;
    assert(text@.skip(0) =~= text@);
    for c in it: text.chars()
        invariant
            it.seq() == text@,
            in_word ==> started,
            collapsed(text@) == line@ + if in_word {
                inside_word(text@.skip(it.index() as int))
            } else if started {
                after_word(text@.skip(it.index() as int))
            } else {
                collapsed(text@.skip(it.index() as int))
            },
    {
        let ghost rest = text@.skip(it.index() as int);
        let ghost before = line@;
        proof {
            lemma_collapse_step(rest);
            assert(text@.skip(it.index() + 1) =~= rest.drop_first());
        }
        if is_whitespace(c) {
            in_word = false;
        } else {
            if started && !in_word {
                line.push(' ');
            }
            line.push(c);
            proof {
                let tail = inside_word(rest.drop_first());
                if started && !in_word {
                    assert(before + (seq![' ', c] + tail) =~= line@ + tail);
                } else {
                    assert(before + (seq![c] + tail) =~= line@ + tail);
                }
            }
            started = true;
            in_word = true;
        }
    }
    proof {
        let rest = text@.skip(text@.len() as int);
        assert(rest =~= Seq::<char>::empty());
        assert(words(rest) =~= Seq::<Seq<char>>::empty());
        assert(collapsed(text@) =~= line@);
    }
    line
}

/// Whether two texts hold the same characters.
pub fn same_text(a: &str, b: &str) -> (same: bool)
    ensures
        same == (a@ == b@),
{
    let left = chars_of(a);
    let right = chars_of(b);
    if left.len() != right.len() {
        return false;
    }
    let mut i: usize = 0;
    while i < left.len()
        invariant
            i <= left@.len(),
            left@ == a@,
            right@ == b@,
            left@.len() == right@.len(),
            forall|j: int| 0 <= j < i ==> left@[j] == right@[j],
        decreases left@.len() - i,
    {
        if left[i] != right[i] {
            return false;
        }
        i = i + 1;
    }
    assert(left@ =~= right@);
    true
}

/// The number of bytes that `text` takes in UTF-8.
pub open spec fn byte_len(text: Seq<char>) -> nat {
    vstd::utf8::encode_utf8(text).len()
}

/// The number of bytes that `text` takes in UTF-8.
pub fn utf8_len(text: &str) -> (bytes: usize)
    ensures
        bytes == byte_len(text@),
        bytes == vstd::utf8::encode_utf8(text@).len(),
{
    text.as_bytes().len()
}

/// The bytes of a text are those of its parts together.
pub proof fn lemma_byte_len_concat(a: Seq<char>, b: Seq<char>)
    ensures
        byte_len(a + b) == byte_len(a) + byte_len(b),
    decreases a.len(),
{
    if a.len() == 0 {
        assert(a + b =~= b);
    } else {
        assert((a + b).drop_first() =~= a.drop_first() + b);
        lemma_byte_len_concat(a.drop_first(), b);
    }
}

/// Whether `text` holds no white space but spaces, none of them in front and no two
/// in a row.
pub open spec fn is_one_line(text: Seq<char>) -> bool {
    &&& forall|i: int| 0 <= i < text.len() && is_white(#[trigger] text[i]) ==> text[i] == ' '
    &&& text.len() > 0 ==> !is_white(text[0])
    &&& forall|i: int, j: int|
        0 <= i && j == i + 1 && j < text.len() ==> !(is_white(#[trigger] text[i]) && is_white(
            #[trigger] text[j],
        ))
}

/// Whether `word` is not empty and holds no white space.
spec fn is_word(word: Seq<char>) -> bool {
    &&& word.len() > 0
    &&& forall|i: int| 0 <= i < word.len() ==> !is_white(#[trigger] word[i])
}

spec fn all_words(parts: Seq<Seq<char>>) -> bool {
    forall|i: int| 0 <= i < parts.len() ==> is_word(#[trigger] parts[i])
}

proof fn lemma_word_len(text: Seq<char>)
    ensures
        word_len(text) <= text.len(),
        forall|i: int| 0 <= i < word_len(text) ==> !is_white(#[trigger] text[i]),
        word_len(text) < text.len() ==> is_white(text[word_len(text) as int]),
    decreases text.len(),
{
    if text.len() > 0 && !is_white(text[0]) {
        let tail = text.drop_first();
        lemma_word_len(tail);
        assert forall|i: int| 0 <= i < word_len(text) implies !is_white(#[trigger] text[i]) by {
            if i > 0 {
                assert(!is_white(tail[i - 1]));
            }
        }
        if word_len(text) < text.len() {
            assert(text[word_len(text) as int] == tail[word_len(tail) as int]);
        }
    }
}

proof fn lemma_words_are_words(text: Seq<char>)
    ensures
        all_words(words(text)),
    decreases text.len(),
{
    lemma_word_len(text);
    if text.len() > 0 {
        if is_white(text[0]) {
            lemma_words_are_words(text.drop_first());
        } else {
            let n = word_len(text) as int;
            lemma_words_are_words(text.skip(n));
            assert(is_word(text.take(n)));
        }
    }
}

proof fn lemma_joined_is_one_line(parts: Seq<Seq<char>>)
    requires
        all_words(parts),
    ensures
        is_one_line(joined(parts, seq![' '])),
        parts.len() > 0 ==> joined(parts, seq![' ']).len() > 0 && !is_white(
            joined(parts, seq![' ']).last(),
        ),
    decreases parts.len(),
{
    if parts.len() == 1 {
        assert(is_word(parts[0]));
    } else if parts.len() > 1 {
        assert(is_word(parts[parts.len() - 1]));
        assert forall|i: int| 0 <= i < parts.drop_last().len() implies is_word(
            #[trigger] parts.drop_last()[i],
        ) by {
            assert(is_word(parts[i]));
        }
        lemma_joined_is_one_line(parts.drop_last());
        let init = joined(parts.drop_last(), seq![' ']);
        let all = joined(parts, seq![' ']);
        assert forall|i: int| 0 <= i < all.len() && is_white(#[trigger] all[i]) implies all[i]
            == ' ' by {
            if i < init.len() {
                assert(all[i] == init[i]);
            } else if i > init.len() {
                assert(all[i] == parts.last()[i - init.len() - 1]);
            }
        }
        assert forall|i: int, j: int| 0 <= i && j == i + 1 && j < all.len() implies !(is_white(
            #[trigger] all[i],
        ) && is_white(#[trigger] all[j])) by {
            if j < init.len() {
                assert(all[i] == init[i] && all[j] == init[j]);
            } else if j == init.len() {
                assert(all[i] == init.last());
            } else {
                assert(all[j] == parts.last()[j - init.len() - 1]);
            }
        }
        assert(all[0] == init[0]);
        assert(all.last() == parts.last()[parts.last().len() - 1]);
    }
}

/// Collapsed text is on one line: its only white space are single spaces, none of
/// them in front.
pub proof fn collapsed_is_one_line(text: Seq<char>)
    ensures
        is_one_line(collapsed(text)),
{
    lemma_words_are_words(text);
    lemma_joined_is_one_line(words(text));
}

proof fn lemma_word_in_front(word: Seq<char>, rest: Seq<char>)
    requires
        is_word(word),
        rest.len() > 0 ==> is_white(rest[0]),
    ensures
        words(word + rest) == seq![word] + words(rest),
{
    let all = word + rest;
    lemma_word_len(all);
    let n = word_len(all) as int;
    assert(all[0] == word[0]);
    assert(n == word.len()) by {
        if n < word.len() {
            assert(all[n] == word[n]);
        } else if n > word.len() {
            assert(all[word.len() as int] == rest[0]);
        }
    }
    assert(all.take(n) =~= word);
    assert(all.skip(n) =~= rest);
}

proof fn lemma_words_of_joined(parts: Seq<Seq<char>>)
    requires
        all_words(parts),
    ensures
        words(joined(parts, seq![' '])) == parts,
    decreases parts.len(),
{
    if parts.len() == 0 {
        assert(words(joined(parts, seq![' '])) =~= parts);
    } else {
        let rest = parts.drop_first();
        assert(parts =~= seq![parts[0]] + rest);
        assert(is_word(parts[0]));
        assert forall|i: int| 0 <= i < rest.len() implies is_word(#[trigger] rest[i]) by {
            assert(is_word(parts[i + 1]));
        }
        lemma_words_of_joined(rest);
        lemma_joined_cons(parts[0], rest, seq![' ']);
        if rest.len() == 0 {
            lemma_word_in_front(parts[0], Seq::empty());
            assert(parts[0] + Seq::<char>::empty() =~= parts[0]);
            assert(words(Seq::<char>::empty()) =~= Seq::<Seq<char>>::empty());
            assert(words(joined(parts, seq![' '])) =~= parts);
        } else {
            let tail = seq![' '] + joined(rest, seq![' ']);
            assert(parts[0] + seq![' '] + joined(rest, seq![' ']) =~= parts[0] + tail);
            assert(tail.drop_first() =~= joined(rest, seq![' ']));
            lemma_word_in_front(parts[0], tail);
        }
    }
}

/// Collapsing keeps the words, so that collapsing again changes nothing.
pub proof fn collapsing_is_idempotent(text: Seq<char>)
    ensures
        words(collapsed(text)) == words(text),
        collapsed(collapsed(text)) == collapsed(text),
{
    lemma_words_are_words(text);
    lemma_words_of_joined(words(text));
}

/// Truncated text is the beginning of the text: all of it where that is at most `cap`
/// characters long, and otherwise its first `cap` characters.
pub proof fn truncation_is_a_prefix(text: Seq<char>, cap: nat)
    ensures
        truncated(text, cap).len() <= cap,
        truncated(text, cap).is_prefix_of(text),
        truncated(text, cap).len() == cap || truncated(text, cap) == text,
        truncated(truncated(text, cap), cap) == truncated(text, cap),
{
}

/// White space are the control characters from tab to carriage return and the next
/// line control, the space, and the spaces and separators beyond ASCII.
pub proof fn white_space_is_that_of_unicode(c: char)
    ensures
        c as int <= 0x7f ==> (is_white(c) <==> c as int == 0x20 || 9 <= c as int <= 13),
        0x80 <= c as int <= 0xff ==> (is_white(c) <==> c as int == 0x85 || c as int == 0xa0),
        0x100 <= c as int <= 0x1fff ==> (is_white(c) <==> c as int == 0x1680),
        0x2000 <= c as int <= 0x20ff ==> (is_white(c) <==> c as int <= 0x200a || c as int == 0x2028
            || c as int == 0x2029 || c as int == 0x202f || c as int == 0x205f),
        0x2100 <= c as int ==> (is_white(c) <==> c as int == 0x3000),
{
}

/// Joining keeps every part as it is and in its place: two lists that are joined
/// together are those that are joined each for itself, with the separator between
/// them.
pub proof fn joining_keeps_every_part(
    before: Seq<Seq<char>>,
    after: Seq<Seq<char>>,
    part: Seq<char>,
    sep: Seq<char>,
)
    ensures
        joined(Seq::empty(), sep) == Seq::<char>::empty(),
        joined(seq![part], sep) == part,
        before.len() > 0 && after.len() > 0 ==> joined(before + after, sep) == joined(before, sep)
            + sep + joined(after, sep),
    decreases before.len(),
{
    if before.len() > 0 && after.len() > 0 {
        let rest = before.drop_first();
        lemma_joined_cons(before[0], rest, sep);
        lemma_joined_cons(before[0], rest + after, sep);
        assert(before =~= seq![before[0]] + rest);
        assert(before + after =~= seq![before[0]] + (rest + after));
        if rest.len() == 0 {
            assert(rest + after =~= after);
        } else {
            joining_keeps_every_part(rest, after, part, sep);
        }
        assert(joined(before + after, sep) =~= joined(before, sep) + sep + joined(after, sep));
    }
}

proof fn lemma_words_split(before: Seq<char>, white: char, after: Seq<char>)
    requires
        is_white(white),
    ensures
        words(before.push(white) + after) == words(before) + words(after),
    decreases before.len(),
{
    let all = before.push(white) + after;
    if before.len() == 0 {
        assert(all.drop_first() =~= after);
        assert(words(before) + words(after) =~= words(after));
    } else if is_white(before[0]) {
        assert(all.drop_first() =~= before.drop_first().push(white) + after);
        lemma_words_split(before.drop_first(), white, after);
    } else {
        lemma_word_len(before);
        let n = word_len(before) as int;
        let rest = before.skip(n);
        assert(is_word(before.take(n)));
        assert(all =~= before.take(n) + (rest.push(white) + after));
        assert((rest.push(white) + after)[0] == if rest.len() > 0 {
            rest[0]
        } else {
            white
        });
        lemma_word_in_front(before.take(n), rest.push(white) + after);
        lemma_words_split(rest, white, after);
        assert(words(all) =~= words(before) + words(after));
    }
}

/// Collapsing keeps a text without white space as it is. A text that is divided by
/// white space collapses to what its two sides collapse to, with one space between
/// them where both hold something.
pub proof fn collapsing_keeps_every_word(before: Seq<char>, white: char, after: Seq<char>)
    requires
        is_white(white),
    ensures
        (forall|i: int| 0 <= i < before.len() ==> !is_white(#[trigger] before[i])) ==> collapsed(
            before,
        ) == before,
        collapsed(before.push(white) + after) == if collapsed(before).len() == 0 {
            collapsed(after)
        } else if collapsed(after).len() == 0 {
            collapsed(before)
        } else {
            collapsed(before) + seq![' '] + collapsed(after)
        },
{
    if forall|i: int| 0 <= i < before.len() ==> !is_white(#[trigger] before[i]) {
        if before.len() > 0 {
            lemma_word_in_front(before, Seq::empty());
            assert(before + Seq::<char>::empty() =~= before);
            assert(words(Seq::<char>::empty()) =~= Seq::<Seq<char>>::empty());
            assert(words(before) =~= seq![before]);
        } else {
            assert(collapsed(before) =~= before);
        }
    }
    lemma_words_split(before, white, after);
    lemma_words_are_words(before);
    lemma_words_are_words(after);
    lemma_joined_is_one_line(words(before));
    lemma_joined_is_one_line(words(after));
    joining_keeps_every_part(words(before), words(after), Seq::empty(), seq![' ']);
    if words(before).len() == 0 {
        assert(words(before) + words(after) =~= words(after));
    } else if words(after).len() == 0 {
        assert(words(before) + words(after) =~= words(before));
    }
}

/// A text collapses to nothing if and only if it is nothing but white space.
pub proof fn only_blank_text_vanishes(text: Seq<char>)
    ensures
        collapsed(text).len() == 0 <==> (forall|i: int|
            0 <= i < text.len() ==> is_white(#[trigger] text[i])),
    decreases text.len(),
{
    lemma_words_are_words(text);
    lemma_joined_is_one_line(words(text));
    if text.len() > 0 && is_white(text[0]) {
        let rest = text.drop_first();
        only_blank_text_vanishes(rest);
        if forall|i: int| 0 <= i < rest.len() ==> is_white(#[trigger] rest[i]) {
            assert forall|i: int| 0 <= i < text.len() implies is_white(#[trigger] text[i]) by {
                if i > 0 {
                    assert(is_white(rest[i - 1]));
                }
            }
        } else {
            let i = choose|i: int| 0 <= i < rest.len() && !is_white(#[trigger] rest[i]);
            assert(!is_white(text[i + 1]));
        }
    }
}

/// The bytes of a character are those of its UTF-8 encoding, and the bytes of a text
/// those of its characters together.
pub proof fn bytes_are_those_of_utf8(text: Seq<char>, c: char)
    ensures
        byte_len(Seq::empty()) == 0,
        byte_len(text.push(c)) == byte_len(text) + if c as int <= 0x7f {
            1int
        } else if c as int <= 0x7ff {
            2
        } else if c as int <= 0xffff {
            3
        } else {
            4
        },
{
    assert(text.push(c) =~= text + seq![c]);
    lemma_byte_len_concat(text, seq![c]);
    assert(seq![c].drop_first() =~= Seq::<char>::empty());
    reveal_with_fuel(vstd::utf8::encode_utf8, 2);
}

/// Joined text is made of all parts, each but the first with the separator in front of
/// it, and of nothing else.
pub proof fn joining_is_flattening(parts: Seq<Seq<char>>, sep: Seq<char>)
    ensures
        joined(parts, sep) == Seq::new(
            parts.len(),
            |i: int|
                if i == 0 {
                    parts[i]
                } else {
                    sep + parts[i]
                },
        ).flatten(),
    decreases parts.len(),
{
    let pieces = Seq::new(
        parts.len(),
        |i: int|
            if i == 0 {
                parts[i]
            } else {
                sep + parts[i]
            },
    );
    if parts.len() > 0 {
        let init = parts.drop_last();
        let fewer = Seq::new(
            init.len(),
            |i: int|
                if i == 0 {
                    init[i]
                } else {
                    sep + init[i]
                },
        );
        joining_is_flattening(init, sep);
        assert(pieces =~= fewer.push(pieces.last()));
        fewer.lemma_flatten_push(pieces.last());
        if parts.len() == 1 {
            assert(fewer.flatten() =~= Seq::<char>::empty());
            assert(joined(parts, sep) =~= pieces.flatten());
        } else {
            assert(joined(init, sep) + sep + parts.last() =~= fewer.flatten() + pieces.last());
        }
    }
}

/// The characters of a list of strings are those of every string, in order.
pub proof fn texts_are_those_of_every_string(parts: Seq<String>)
    ensures
        texts(parts) == parts.map_values(|part: String| part@),
{
    assert(texts(parts) =~= parts.map_values(|part: String| part@));
}

} // verus!
