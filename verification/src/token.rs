//! The tokenizer shared by index construction and queries: a token is a
//! maximal run of letters, digits, or the symbols `+ * _ # -`; every other
//! character separates tokens and is dropped.

use vstd::prelude::*;
use vstd::string::StrSliceExecFns;
use crate::text::lower_char;
use crate::text::lower_seq;
use crate::text::push_char;

verus! {

/// Whether the character counts as alphanumeric (a Unicode letter or number).
pub uninterp spec fn is_alnum(c: char) -> bool;

/// Relies on `char::is_alphanumeric`: true exactly for Unicode letters and
/// numbers; in particular true for every ASCII letter and digit.
#[verifier::external_body]
fn alnum(c: char) -> (r: bool)
    ensures
        r == is_alnum(c),
        'a' <= c && c <= 'z' ==> r,
        'A' <= c && c <= 'Z' ==> r,
        '0' <= c && c <= '9' ==> r,
{
    c.is_alphanumeric()
}

/// Whether the character belongs to a token: a letter, a digit, or one of
/// the symbols `+ * _ # -`.  ASCII letters and digits are listed outright,
/// so that the tokenization of ASCII text can be reasoned about directly.
pub open spec fn is_token_char(c: char) -> bool {
    ||| ('a' <= c && c <= 'z')
    ||| ('A' <= c && c <= 'Z')
    ||| ('0' <= c && c <= '9')
    ||| c == '+'
    ||| c == '*'
    ||| c == '_'
    ||| c == '#'
    ||| c == '-'
    ||| is_alnum(c)
}

fn token_char(c: char) -> (r: bool)
    ensures
        r == is_token_char(c),
{
    alnum(c) || c == '+' || c == '*' || c == '_' || c == '#' || c == '-'
}

/// Length of the maximal run of token characters at the head of `s`.
pub open spec fn run_len(s: Seq<char>) -> int
    decreases s.len(),
{
    if s.len() == 0 || !is_token_char(s[0]) {
        0
    } else {
        1 + run_len(s.drop_first())
    }
}

pub proof fn lemma_run_len_bounds(s: Seq<char>)
    ensures
        0 <= run_len(s) <= s.len(),
        forall|i: int| 0 <= i < run_len(s) ==> is_token_char(s[i]),
        run_len(s) < s.len() ==> !is_token_char(s[run_len(s)]),
    decreases s.len(),
{
    if s.len() != 0 && is_token_char(s[0]) {
        lemma_run_len_bounds(s.drop_first());
        assert forall|i: int| 0 <= i < run_len(s) implies is_token_char(s[i]) by {
            if i > 0 {
                assert(s.drop_first()[i - 1] == s[i]);
            }
        }
    }
}

/// A run is determined by its extent: if the characters of `s` up to `n`
/// are token characters and the one at `n` (if any) is not, the maximal
/// run has length exactly `n`.
pub proof fn lemma_run_len_is(s: Seq<char>, n: int)
    requires
        0 <= n <= s.len(),
        forall|i: int| 0 <= i < n ==> is_token_char(s[i]),
        n < s.len() ==> !is_token_char(s[n]),
    ensures
        run_len(s) == n,
    decreases n,
{
    if n == 0 {
    } else {
        assert(is_token_char(s[0]));
        lemma_run_len_is(s.drop_first(), n - 1);
    }
}

/// The tokens of a character sequence: the maximal runs of token
/// characters, in order, with all separators dropped.
pub open spec fn spec_tokens(s: Seq<char>) -> Seq<Seq<char>>
    decreases s.len(),
    via spec_tokens_decreases
{
    if s.len() == 0 {
        seq![]
    } else if !is_token_char(s[0]) {
        spec_tokens(s.drop_first())
    } else {
        seq![s.take(run_len(s))] + spec_tokens(s.skip(run_len(s)))
    }
}

#[via_fn]
proof fn spec_tokens_decreases(s: Seq<char>) {
    if s.len() != 0 && is_token_char(s[0]) {
        lemma_run_len_bounds(s);
        assert(run_len(s) == 1 + run_len(s.drop_first()));
        lemma_run_len_bounds(s.drop_first());
    }
}

/// Split `text` into its tokens.  Tokens keep the case of the input;
/// lowercasing for index keys happens separately, at indexing and lookup.
pub fn tokenize(text: &str) -> (r: Vec<String>)
    ensures
        r.deep_view() == spec_tokens(text@),
{
    let n = text.unicode_len();
    let mut r: Vec<String> = Vec::new();
    proof {
        assert(text@.skip(0) =~= text@);
        assert(r.deep_view() =~= Seq::<Seq<char>>::empty());
        assert(Seq::<Seq<char>>::empty() + spec_tokens(text@) =~= spec_tokens(text@));
    }
    let mut i: usize = 0;
    while i < n
        invariant
            n == text@.len(),
            0 <= i <= n,
            spec_tokens(text@) == r.deep_view() + spec_tokens(text@.skip(i as int)),
        decreases n - i,
    {
        let c = text.get_char(i);
        if !token_char(c) {
            proof {
                assert(text@.skip(i as int)[0] == text@[i as int]);
                assert(text@.skip(i as int).drop_first() =~= text@.skip(i + 1));
            }
            i = i + 1;
        } else {
            // collect the maximal run starting at i
            let start = i;
            let mut word = String::new();
            push_char(&mut word, c);
            i = i + 1;
            while i < n
                invariant
                    n == text@.len(),
                    0 <= start < i <= n,
                    word@ == text@.subrange(start as int, i as int),
                    forall|j: int| start <= j < i ==> is_token_char(text@[j]),
                ensures
                    n == text@.len(),
                    start < i <= n,
                    word@ == text@.subrange(start as int, i as int),
                    forall|j: int| start <= j < i ==> is_token_char(text@[j]),
                    i < n ==> !is_token_char(text@[i as int]),
                decreases n - i,
            {
                let c2 = text.get_char(i);
                if !token_char(c2) {
                    break;
                }
                push_char(&mut word, c2);
                proof {
                    assert(text@.subrange(start as int, i as int).push(text@[i as int])
                        =~= text@.subrange(start as int, i + 1));
                }
                i = i + 1;
            }
            proof {
                let rest = text@.skip(start as int);
                assert forall|j: int| 0 <= j < i - start implies is_token_char(rest[j]) by {
                    assert(rest[j] == text@[start + j]);
                }
                assert(i - start < rest.len() ==> !is_token_char(rest[i - start])) by {
                    if i < n {
                        assert(rest[i - start] == text@[i as int]);
                    }
                }
                assert(is_token_char(rest[0]));
                lemma_run_len_is(rest, i - start);
                assert(rest.take(i - start) =~= text@.subrange(start as int, i as int));
                assert(rest.skip(i - start) =~= text@.skip(i as int));
                assert(spec_tokens(rest) == seq![word@] + spec_tokens(text@.skip(i as int)));
            }
            let ghost old_dv = r.deep_view();
            let ghost word_v = word@;
            r.push(word);
            proof {
                assert(r.deep_view() =~= old_dv.push(word_v));
                assert(old_dv + (seq![word_v] + spec_tokens(text@.skip(i as int)))
                    =~= old_dv.push(word_v) + spec_tokens(text@.skip(i as int)));
            }
        }
    }
    proof {
        assert(text@.skip(n as int) =~= Seq::<char>::empty());
        assert(r.deep_view() + spec_tokens(text@.skip(n as int)) =~= r.deep_view());
    }
    r
}

/// Lowercasing maps token characters to token characters and separators to
/// separators: it only moves uppercase ASCII letters to lowercase ones.
pub proof fn lemma_token_char_lower(c: char)
    ensures
        is_token_char(lower_char(c)) == is_token_char(c),
{
}

/// Tokenizing the lowercased text gives the lowercased tokens: lowercasing
/// maps token characters to token characters and separators to themselves,
/// so the runs fall in the same places.
pub proof fn lemma_tokens_lower(s: Seq<char>)
    ensures
        spec_tokens(lower_seq(s)) == spec_tokens(s).map_values(|t: Seq<char>| lower_seq(t)),
    decreases s.len(),
{
    let ls = lower_seq(s);
    if s.len() == 0 {
        assert(spec_tokens(ls) =~= spec_tokens(s).map_values(|t: Seq<char>| lower_seq(t)));
    } else if !is_token_char(s[0]) {
        assert(ls[0] == lower_char(s[0]));
        lemma_token_char_lower(s[0]);
        assert(!is_token_char(ls[0]));
        lemma_tokens_lower(s.drop_first());
        assert(lower_seq(s.drop_first()) =~= ls.drop_first());
    } else {
        let nr = run_len(s);
        lemma_run_len_bounds(s);
        assert(ls[0] == lower_char(s[0]));
        lemma_token_char_lower(s[0]);
        assert(is_token_char(ls[0]));
        lemma_run_len_lower(s);
        lemma_tokens_lower(s.skip(nr));
        assert(lower_seq(s.skip(nr)) =~= ls.skip(nr));
        assert(ls.take(nr) =~= lower_seq(s.take(nr)));
        assert(spec_tokens(ls) == seq![lower_seq(s.take(nr))] + spec_tokens(lower_seq(s.skip(nr))));
        assert(spec_tokens(ls) =~= spec_tokens(s).map_values(|t: Seq<char>| lower_seq(t)));
    }
}

proof fn lemma_run_len_lower(s: Seq<char>)
    ensures
        run_len(lower_seq(s)) == run_len(s),
    decreases s.len(),
{
    if s.len() != 0 {
        assert(lower_seq(s)[0] == lower_char(s[0]));
        lemma_token_char_lower(s[0]);
        if is_token_char(s[0]) {
            lemma_run_len_lower(s.drop_first());
            assert(lower_seq(s.drop_first()) =~= lower_seq(s).drop_first());
        }
    }
}

} // verus!
