//! The answer to a yes/no question.

use vstd::prelude::*;
use vstd::string::*;

use crate::text;

verus! {

/// What an answer means: an explicit `y`/`yes` or `n`/`no`, whatever its case
/// and the white space around it, wins; anything else takes the default.
pub open spec fn answer_of(line: Seq<char>, default: bool) -> bool {
    let a = text::lowered(text::trimmed(line));
    if a == "y"@ || a == "yes"@ {
        true
    } else if a == "n"@ || a == "no"@ {
        false
    } else {
        default
    }
}

/// What an answer means.
pub fn answer(line: &str, default: bool) -> (r: bool)
    ensures
        r == answer_of(line@, default),
{
    let t = text::trim(line);
    let a = text::lower(t.as_str());
    if text::same(a.as_str(), "y") || text::same(a.as_str(), "yes") {
        true
    } else if text::same(a.as_str(), "n") || text::same(a.as_str(), "no") {
        false
    } else {
        default
    }
}

/// The default decides exactly where the answer is neither a yes nor a no.
pub proof fn law_default_decides_only_unclear_answers(line: Seq<char>)
    ensures
        ({
            let a = text::lowered(text::trimmed(line));
            (answer_of(line, true) != answer_of(line, false)) <==> !(a == "y"@ || a == "yes"@ || a
                == "n"@ || a == "no"@)
        }),
{
}

/// Neither case nor the white space around an answer matters.
pub proof fn law_answers_ignore_case_and_space(a: Seq<char>, b: Seq<char>, default: bool)
    requires
        text::lowered(text::trimmed(a)) == text::lowered(text::trimmed(b)),
    ensures
        answer_of(a, default) == answer_of(b, default),
{
}

/// Whether a text is a word, letter by letter in either case.
pub open spec fn spells(s: Seq<char>, small: Seq<char>, large: Seq<char>) -> bool {
    s.len() == small.len() && forall|i: int|
        0 <= i < s.len() ==> #[trigger] s[i] == small[i] || s[i] == large[i]
}

/// A `y` or `yes` is a yes and an `n` or `no` is a no, in any case, with any white
/// space around it, and whatever the default.
pub proof fn law_clear_answers_win(
    a: Seq<char>,
    word: Seq<char>,
    b: Seq<char>,
    default: bool,
)
    requires
        forall|i: int| 0 <= i < a.len() ==> text::is_white(#[trigger] a[i]),
        forall|i: int| 0 <= i < b.len() ==> text::is_white(#[trigger] b[i]),
    ensures
        spells(word, seq!['y'], seq!['Y']) || spells(word, seq!['y', 'e', 's'], seq!['Y', 'E', 'S'])
            ==> answer_of(a + word + b, default),
        spells(word, seq!['n'], seq!['N']) || spells(word, seq!['n', 'o'], seq!['N', 'O'])
            ==> !answer_of(a + word + b, default),
{
    reveal_strlit("y");
    reveal_strlit("yes");
    reveal_strlit("n");
    reveal_strlit("no");
    let l = text::lowered(word);
    if spells(word, seq!['y'], seq!['Y']) {
        text::law_trimming_takes_the_white_space_around(a, word, b);
        assert(l =~= "y"@);
    }
    if spells(word, seq!['y', 'e', 's'], seq!['Y', 'E', 'S']) {
        assert(word[2] == 's' || word[2] == 'S');
        text::law_trimming_takes_the_white_space_around(a, word, b);
        assert(word[0] == 'y' || word[0] == 'Y');
        assert(word[1] == 'e' || word[1] == 'E');
        assert(l =~= "yes"@);
    }
    if spells(word, seq!['n'], seq!['N']) {
        text::law_trimming_takes_the_white_space_around(a, word, b);
        assert(l =~= "n"@);
        assert(l[0] == 'n');
    }
    if spells(word, seq!['n', 'o'], seq!['N', 'O']) {
        assert(word[1] == 'o' || word[1] == 'O');
        text::law_trimming_takes_the_white_space_around(a, word, b);
        assert(word[0] == 'n' || word[0] == 'N');
        assert(l =~= "no"@);
        assert(l[0] == 'n');
    }
}

/// An answer that begins with any other letter than `y` or `n`, or is longer than
/// `yes`, is unclear: the default decides. So does no answer at all.
pub proof fn law_unclear_answers_take_the_default(
    a: Seq<char>,
    word: Seq<char>,
    b: Seq<char>,
    default: bool,
)
    requires
        forall|i: int| 0 <= i < a.len() ==> text::is_white(#[trigger] a[i]),
        forall|i: int| 0 <= i < b.len() ==> text::is_white(#[trigger] b[i]),
        word.len() > 0 ==> !text::is_white(word[0]) && !text::is_white(word.last()),
        word.len() == 0 || word.len() > 3 || !(word[0] == 'y' || word[0] == 'Y' || word[0] == 'n'
            || word[0] == 'N'),
    ensures
        answer_of(a + word + b, default) == default,
{
    reveal_strlit("y");
    reveal_strlit("yes");
    reveal_strlit("n");
    reveal_strlit("no");
    text::law_trimming_takes_the_white_space_around(a, word, b);
    let l = text::lowered(word);
    if word.len() > 0 {
        text::law_lowering_changes_capitals_alone(word, 0);
    }
    assert(l.len() == word.len());
    assert("y"@[0] == 'y' && "yes"@[0] == 'y' && "n"@[0] == 'n' && "no"@[0] == 'n');
}

} // verus!
