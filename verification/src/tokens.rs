//! Counting tokens with the `o200k_base` tokenizer of `tiktoken_rs`.

use vstd::prelude::*;

verus! {

/// A run of white space of this length can be too long for the tokenizer.
pub const BLANK_RUN_LIMIT: usize = 999_999;

/// Whether the characters of `text` from `from` on start with `len` white ones.
pub open spec fn blank_run(text: Seq<char>, from: int, len: int) -> bool {
    &&& 0 <= from
    &&& from + len <= text.len()
    &&& forall|i: int| from <= i < from + len ==> crate::strings::is_white(#[trigger] text[i])
}

/// Whether the tokenizer can count `text`: no run of white space reaches
/// `BLANK_RUN_LIMIT`.
pub open spec fn can_count(text: Seq<char>) -> bool {
    forall|from: int| !#[trigger] blank_run(text, from, BLANK_RUN_LIMIT as int)
}

/// The number of ordinary tokens of `text` in the `o200k_base` encoding.
pub uninterp spec fn o200k_token_count(text: Seq<char>) -> usize;

/// `CoreBPE::count_ordinary` of the tokenizer that
/// `tiktoken_rs::o200k_base_singleton` hands out. Nothing is claimed of the count
/// beyond the name: the same text always has the same count. The pattern that
/// splits the text is matched with a backtrack stack of a million entries, one
/// for each character of a run of white space, and the count panics where that
/// is not enough.
#[verifier::external_body]
pub(crate) fn count_tokens(text: &str) -> (tokens: usize)
    requires
        can_count(text@),
    ensures
        tokens == o200k_token_count(text@),
{
    tiktoken_rs::o200k_base_singleton().count_ordinary(text)
}

/// Whether `text` can be counted.
pub fn is_countable(text: &str) -> (countable: bool)
    ensures
        countable == can_count(text@),
{
    let mut run: usize = 0;
    for c in it: text.chars()
        invariant
            it.seq() == text@,
            run <= it.index(),
            run < BLANK_RUN_LIMIT,
            blank_run(text@, it.index() - run, run as int),
            run < it.index() ==> !crate::strings::is_white(text@[it.index() - run - 1]),
            forall|from: int|
                from + BLANK_RUN_LIMIT <= it.index() ==> !#[trigger] blank_run(
                    text@,
                    from,
                    BLANK_RUN_LIMIT as int,
                ),
    {
        let ghost at = it.index() as int;
        if crate::strings::is_whitespace(c) {
            run = run + 1;
            if run == BLANK_RUN_LIMIT {
                assert(blank_run(text@, at + 1 - run, BLANK_RUN_LIMIT as int));
                return false;
            }
        } else {
            run = 0;
        }
        assert forall|from: int| from + BLANK_RUN_LIMIT <= at + 1 implies !#[trigger] blank_run(
            text@,
            from,
            BLANK_RUN_LIMIT as int,
        ) by {
            if from + BLANK_RUN_LIMIT == at + 1 && from >= 0 {
                let stop = at - run;
                assert(from <= stop < from + BLANK_RUN_LIMIT);
                assert(!crate::strings::is_white(text@[stop]));
            }
        }
    }
    true
}

/// The tokenizer can count every text but one with 999999 or more characters of white
/// space in a row.
pub proof fn only_long_blanks_cannot_be_counted(text: Seq<char>)
    ensures
        can_count(text) <==> (forall|from: int|
            0 <= from <= text.len() && (#[trigger] text.skip(from)).len() >= 999_999 ==> exists|i: int|
                0 <= i < 999_999 && !crate::strings::is_white(#[trigger] text.skip(from)[i])),
{
    if can_count(text) {
        assert forall|from: int|
            0 <= from <= text.len() && (#[trigger] text.skip(from)).len() >= 999_999 implies exists|
            i: int,
        |
            0 <= i < 999_999 && !crate::strings::is_white(#[trigger] text.skip(from)[i]) by {
            assert(!blank_run(text, from, BLANK_RUN_LIMIT as int));
            let j = choose|j: int|
                from <= j < from + BLANK_RUN_LIMIT && !crate::strings::is_white(#[trigger] text[j]);
            assert(text.skip(from)[j - from] == text[j]);
        }
    } else {
        let from = choose|from: int| #[trigger] blank_run(text, from, BLANK_RUN_LIMIT as int);
        let rest = text.skip(from);
        assert forall|i: int| 0 <= i < 999_999 implies crate::strings::is_white(
            #[trigger] rest[i],
        ) by {
            assert(rest[i] == text[from + i]);
        }
    }
}

} // verus!
