//! What holds of what the user is told.

use vstd::prelude::*;

use crate::events::{clean_words, tmux_error};
use crate::text::{
    blank, inked, is_control_code, is_white_space, joined, lemma_run_len_bounds, run_len, words,
};
use crate::wrap::{concat, lemma_concat_split};

verus! {

/// Everything but white space, of a text.
pub open spec fn without_blanks(s: Seq<char>) -> Seq<char> {
    s.filter(|c: char| !is_white_space(c))
}

/// Everything but control characters, of a text.
pub open spec fn without_controls(s: Seq<char>) -> Seq<char> {
    s.filter(|c: char| !is_control_code(c))
}

/// Whether a text has anything to show: a character that is neither white space nor
/// a control character.
pub open spec fn has_ink(s: Seq<char>) -> bool {
    exists|i: int|
        0 <= i < s.len() && !is_white_space(#[trigger] s[i]) && !is_control_code(s[i])
}

/// Whether a text is words with single spaces between them: no other white space,
/// none at either end, and no control characters.
pub open spec fn is_tidy(s: Seq<char>) -> bool {
    &&& forall|i: int| 0 <= i < s.len() ==> !is_control_code(#[trigger] s[i])
    &&& forall|i: int| 0 <= i < s.len() ==> #[trigger] single_if_blank(s, i)
}

/// Whether a character that is white space is a space with something else on either
/// side.
pub open spec fn single_if_blank(s: Seq<char>, i: int) -> bool {
    is_white_space(s[i]) ==> {
        &&& s[i] == ' '
        &&& 0 < i < s.len() - 1
        &&& !is_white_space(s[i - 1])
        &&& !is_white_space(s[i + 1])
    }
}

/// Whether a text is a word: something without white space.
pub open spec fn is_word(w: Seq<char>) -> bool {
    w.len() > 0 && forall|i: int| 0 <= i < w.len() ==> !is_white_space(#[trigger] w[i])
}

/// Whether the texts are words without control characters.
spec fn clean(parts: Seq<Seq<char>>) -> bool {
    forall|i: int| 0 <= i < parts.len() ==> is_clean_word(#[trigger] parts[i])
}

/// Whether a text is a word without control characters.
spec fn is_clean_word(w: Seq<char>) -> bool {
    is_word(w) && forall|i: int| 0 <= i < w.len() ==> !is_control_code(#[trigger] w[i])
}

/// What passes a filter whole.
proof fn lemma_all_pass(s: Seq<char>, p: spec_fn(char) -> bool)
    requires
        forall|i: int| 0 <= i < s.len() ==> p(#[trigger] s[i]),
    ensures
        s.filter(p) == s,
    decreases s.len(),
{
    reveal(Seq::filter);
    if s.len() > 0 {
        assert(p(s[s.len() - 1]));
        lemma_all_pass(s.drop_last(), p);
        assert(s.filter(p) =~= s);
    } else {
        assert(s.filter(p) =~= s);
    }
}

/// What passes a filter not at all.
proof fn lemma_none_pass(s: Seq<char>, p: spec_fn(char) -> bool)
    requires
        forall|i: int| 0 <= i < s.len() ==> !p(#[trigger] s[i]),
    ensures
        s.filter(p).len() == 0,
    decreases s.len(),
{
    reveal(Seq::filter);
    if s.len() > 0 {
        assert(!p(s[s.len() - 1]));
        lemma_none_pass(s.drop_last(), p);
    }
}

/// What a filter lets through passes it.
proof fn lemma_passed(s: Seq<char>, p: spec_fn(char) -> bool)
    ensures
        forall|i: int| 0 <= i < s.filter(p).len() ==> p(#[trigger] s.filter(p)[i]),
    decreases s.len(),
{
    reveal(Seq::filter);
    if s.len() > 0 {
        lemma_passed(s.drop_last(), p);
    }
}

/// What a filter lets through of a word is a word, or nothing.
proof fn lemma_filtered_word(w: Seq<char>, p: spec_fn(char) -> bool)
    requires
        forall|i: int| 0 <= i < w.len() ==> !is_white_space(#[trigger] w[i]),
    ensures
        forall|i: int| 0 <= i < w.filter(p).len() ==> !is_white_space(#[trigger] w.filter(p)[i]),
    decreases w.len(),
{
    reveal(Seq::filter);
    if w.len() > 0 {
        let front = w.drop_last();
        assert(!is_white_space(w[w.len() - 1]));
        assert forall|i: int| 0 <= i < front.len() implies !is_white_space(#[trigger] front[i]) by {
            assert(front[i] == w[i]);
        }
        lemma_filtered_word(front, p);
        assert forall|i: int| 0 <= i < w.filter(p).len() implies !is_white_space(
            #[trigger] w.filter(p)[i],
        ) by {
            if i < front.filter(p).len() {
                assert(w.filter(p)[i] == front.filter(p)[i]);
            }
        }
    }
}

/// The words of a text are words, and put together they are the text without its
/// white space.
pub proof fn law_words_are_the_text_without_blanks(s: Seq<char>)
    ensures
        forall|i: int| 0 <= i < words(s).len() ==> is_word(#[trigger] words(s)[i]),
        concat(words(s)) == without_blanks(s),
    decreases s.len(),
{
    let keep = |c: char| !is_white_space(c);
    let n = run_len(s, blank());
    lemma_run_len_bounds(s, blank());
    let t = s.skip(n as int);
    let m = run_len(t, inked());
    lemma_run_len_bounds(t, inked());
    assert(s.take(n as int) + t =~= s);
    assert forall|i: int| 0 <= i < s.take(n as int).len() implies !keep(
        #[trigger] s.take(n as int)[i],
    ) by {
        assert(blank()(s[i]));
    }
    lemma_none_pass(s.take(n as int), keep);
    Seq::filter_distributes_over_add(s.take(n as int), t, keep);
    assert(without_blanks(s) =~= without_blanks(t));
    if n >= s.len() {
        assert(t =~= Seq::<char>::empty());
        lemma_none_pass(t, keep);
        assert(words(s) =~= Seq::<Seq<char>>::empty());
        assert(concat(words(s)) =~= without_blanks(s));
    } else {
        assert(t[0] == s[n as int]);
        assert(!blank()(s[n as int]));
        assert(inked()(t[0]));
        assert(m > 0);
        let w = t.take(m as int);
        let rest = t.skip(m as int);
        assert forall|i: int| 0 <= i < w.len() implies !is_white_space(#[trigger] w[i]) by {
            assert(inked()(t[i]));
        }
        law_words_are_the_text_without_blanks(rest);
        assert(words(s) == seq![w] + words(rest));
        assert(w + rest =~= t);
        lemma_all_pass(w, keep);
        Seq::filter_distributes_over_add(w, rest, keep);
        lemma_concat_first(w, words(rest));
        assert forall|i: int| 0 <= i < words(s).len() implies is_word(#[trigger] words(s)[i]) by {
            if i > 0 {
                assert(words(s)[i] == words(rest)[i - 1]);
            }
        }
    }
}

/// A part in front of others.
proof fn lemma_concat_first(w: Seq<char>, rest: Seq<Seq<char>>)
    ensures
        concat(seq![w] + rest) == w + concat(rest),
{
    let all = seq![w] + rest;
    lemma_concat_split(all, 1);
    assert(all.take(1) =~= seq![w]);
    assert(all.skip(1) =~= rest);
    reveal_with_fuel(concat, 2);
    assert(seq![w].drop_last() =~= Seq::<Seq<char>>::empty());
    assert(concat(seq![w]) =~= w);
}

/// Words without control characters are words, and put together they are what they
/// were without control characters.
proof fn lemma_clean_words(parts: Seq<Seq<char>>)
    requires
        forall|i: int| 0 <= i < parts.len() ==> is_word(#[trigger] parts[i]),
    ensures
        clean(clean_words(parts)),
        concat(clean_words(parts)) == without_controls(concat(parts)),
    decreases parts.len(),
{
    let keep = |c: char| !is_control_code(c);
    if parts.len() == 0 {
        lemma_none_pass(concat(parts), keep);
        assert(concat(clean_words(parts)) =~= without_controls(concat(parts)));
    } else {
        let front = parts.drop_last();
        let last = parts.last();
        let word = without_controls(last);
        assert forall|i: int| 0 <= i < front.len() implies is_word(#[trigger] front[i]) by {
            assert(front[i] == parts[i]);
        }
        lemma_clean_words(front);
        Seq::filter_distributes_over_add(concat(front), last, keep);
        assert(is_word(parts[parts.len() - 1]));
        lemma_passed(last, keep);
        lemma_filtered_word(last, keep);
        let done = clean_words(front);
        if word.len() > 0 {
            let all = done.push(word);
            assert(all.drop_last() =~= done);
            assert forall|i: int| 0 <= i < word.len() implies !is_control_code(
                #[trigger] word[i],
            ) by {
                assert(keep(last.filter(keep)[i]));
            }
            assert forall|i: int| 0 <= i < all.len() implies is_clean_word(#[trigger] all[i]) by {
                if i < done.len() {
                    assert(all[i] == done[i]);
                }
            }
        } else {
            assert(concat(done) + word =~= concat(done));
        }
    }
}

/// A tidy text, a space and a word are tidy.
proof fn lemma_tidy_append(f: Seq<char>, word: Seq<char>)
    requires
        is_tidy(f),
        f.len() > 0,
        !is_white_space(f.last()),
        is_clean_word(word),
    ensures
        is_tidy(f + seq![' '] + word),
{
    let s = f + seq![' '] + word;
    assert forall|i: int| 0 <= i < s.len() implies !is_control_code(#[trigger] s[i]) by {
        if i < f.len() {
            assert(s[i] == f[i]);
        } else if i > f.len() {
            assert(s[i] == word[i - f.len() - 1]);
        }
    }
    assert forall|i: int| 0 <= i < s.len() implies #[trigger] single_if_blank(s, i) by {
        if i < f.len() {
            assert(single_if_blank(f, i));
            assert(s[i] == f[i]);
            if is_white_space(s[i]) {
                assert(s[i - 1] == f[i - 1]);
                assert(s[i + 1] == f[i + 1]);
            }
        } else if i == f.len() {
            assert(s[i - 1] == f.last());
            assert(s[i + 1] == word[0]);
        } else {
            assert(s[i] == word[i - f.len() - 1]);
        }
    }
}

/// A word by itself is tidy.
proof fn lemma_tidy_word(word: Seq<char>)
    requires
        is_clean_word(word),
    ensures
        is_tidy(word),
{
    assert forall|i: int| 0 <= i < word.len() implies #[trigger] single_if_blank(word, i) by {
        assert(!is_white_space(word[i]));
    }
}

/// Words joined by spaces are tidy and end with ink.
proof fn lemma_joined_tidy(parts: Seq<Seq<char>>)
    requires
        parts.len() > 0,
        clean(parts),
    ensures
        is_tidy(joined(parts, seq![' '])),
        joined(parts, seq![' ']).len() > 0,
        !is_white_space(joined(parts, seq![' ']).last()),
    decreases parts.len(),
{
    let s = joined(parts, seq![' ']);
    let word = parts.last();
    assert(is_clean_word(parts[parts.len() - 1]));
    assert(!is_white_space(word[word.len() - 1]));
    if parts.len() == 1 {
        lemma_tidy_word(word);
    } else {
        let front = parts.drop_last();
        lemma_clean_front(parts);
        lemma_joined_tidy(front);
        lemma_tidy_append(joined(front, seq![' ']), word);
    }
}

/// The first of some clean words are clean.
proof fn lemma_clean_front(parts: Seq<Seq<char>>)
    requires
        parts.len() > 0,
        clean(parts),
    ensures
        clean(parts.drop_last()),
{
    let front = parts.drop_last();
    assert forall|i: int| 0 <= i < front.len() implies is_clean_word(
        #[trigger] front[i],
    ) by {
        assert(front[i] == parts[i]);
    }
}

/// Words joined by spaces are the words, without the spaces.
proof fn lemma_joined_ink(parts: Seq<Seq<char>>)
    requires
        clean(parts),
    ensures
        without_blanks(joined(parts, seq![' '])) == concat(parts),
    decreases parts.len(),
{
    let keep = |c: char| !is_white_space(c);
    let sep = seq![' '];
    let s = joined(parts, sep);
    if parts.len() == 0 {
        lemma_none_pass(s, keep);
        assert(without_blanks(s) =~= concat(parts));
    } else {
        let word = parts.last();
        assert(is_clean_word(parts[parts.len() - 1]));
        lemma_all_pass(word, keep);
        let front = parts.drop_last();
        if parts.len() == 1 {
            assert(front =~= Seq::<Seq<char>>::empty());
            assert(concat(front) =~= Seq::<char>::empty());
            assert(concat(parts) =~= word);
        } else {
            lemma_clean_front(parts);
            lemma_joined_ink(front);
            let f = joined(front, sep);
            lemma_none_pass(sep, keep);
            Seq::filter_distributes_over_add(f + sep, word, keep);
            Seq::filter_distributes_over_add(f, sep, keep);
            assert(without_blanks(s) =~= concat(front) + word);
        }
    }
}

/// Something is left of a text without blanks and control characters exactly where
/// it has ink.
proof fn lemma_ink(s: Seq<char>)
    ensures
        has_ink(s) <==> without_controls(without_blanks(s)).len() > 0,
    decreases s.len(),
{
    reveal(Seq::filter);
    if s.len() > 0 {
        let front = s.drop_last();
        let c = s.last();
        lemma_ink(front);
        let kept = without_blanks(front);
        if !is_white_space(c) {
            assert(without_blanks(s) == kept.push(c));
            assert(kept.push(c).drop_last() =~= kept);
        }
        if has_ink(front) {
            let i = choose|i: int|
                0 <= i < front.len() && !is_white_space(#[trigger] front[i]) && !is_control_code(
                    front[i],
                );
            assert(!is_white_space(s[i]) && !is_control_code(s[i]));
        } else {
            if !is_white_space(c) && !is_control_code(c) {
                assert(!is_white_space(s[s.len() - 1]));
            } else if has_ink(s) {
                let i = choose|i: int|
                    0 <= i < s.len() && !is_white_space(#[trigger] s[i]) && !is_control_code(s[i]);
                assert(front[i] == s[i]);
            }
        }
    }
}

/// Where tmux wrote anything to show, that is the message whatever its status: its
/// characters that show, in order, with single spaces between words and no control
/// characters. Otherwise, and only there, the message is the status.
pub proof fn law_tmux_is_quoted_tidily(status: Seq<char>, written: Seq<char>)
    ensures
        has_ink(written) ==> {
            let message = tmux_error(status, written);
            &&& message == joined(clean_words(words(written)), " "@)
            &&& message.len() > 0
            &&& is_tidy(message)
            &&& without_blanks(message) == without_controls(without_blanks(written))
        },
        !has_ink(written) ==> tmux_error(status, written) == "tmux exited with "@ + status,
{
    let parts = clean_words(words(written));
    reveal_strlit(" ");
    assert(" "@ =~= seq![' ']);
    law_words_are_the_text_without_blanks(written);
    lemma_clean_words(words(written));
    lemma_joined_ink(parts);
    lemma_ink(written);
    if parts.len() == 0 {
        assert(concat(parts).len() == 0);
    } else {
        lemma_concat_nonempty(parts);
        lemma_joined_tidy(parts);
    }
}

/// Words put together are something.
proof fn lemma_concat_nonempty(parts: Seq<Seq<char>>)
    requires
        parts.len() > 0,
        clean(parts),
    ensures
        concat(parts).len() > 0,
{
    assert(is_clean_word(parts[parts.len() - 1]));
}

} // verus!
