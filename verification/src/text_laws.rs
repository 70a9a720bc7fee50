//! What holds of text: how splitting, trimming and numbers relate to putting text together.
use crate::text;
use vstd::prelude::*;

verus! {

/// White space is what Unicode counts as such: the control characters from tab to carriage return,
/// the space, the next line, the no-break space, and the spaces and separators of other scripts.
pub proof fn law_white_space(c: char)
    ensures
        text::is_white(c) <==> {
            ||| '\t' <= c <= '\r'
            ||| c == ' '
            ||| c == '\u{85}'
            ||| c == '\u{a0}'
            ||| c == '\u{1680}'
            ||| '\u{2000}' <= c <= '\u{200a}'
            ||| c == '\u{2028}'
            ||| c == '\u{2029}'
            ||| c == '\u{202f}'
            ||| c == '\u{205f}'
            ||| c == '\u{3000}'
        },
{
}

/// Text on the two sides of a mark is split on each side for itself.
pub proof fn law_split_at_mark<T>(a: Seq<T>, mark: T, b: Seq<T>)
    ensures
        text::split_on(a + seq![mark] + b, mark) == text::split_on(a, mark) + text::split_on(b, mark),
{
    assert(a + seq![mark] + b == a.push(mark) + b);
    text::lemma_split_on_concat(a, mark, b);
}

/// Text without a mark is one piece.
pub proof fn law_split_without_mark<T>(s: Seq<T>, mark: T)
    requires
        !s.contains(mark),
    ensures
        text::split_on(s, mark) == seq![s],
{
    assert forall|i: int| 0 <= i < s.len() implies s[i] != mark by {
        assert(s.contains(s[i]));
    }
    text::lemma_split_one(s, mark);
}

/// A text followed by pieces, with a mark before each of them.
pub open spec fn strung<T>(first: Seq<T>, pieces: Seq<Seq<T>>, mark: T) -> Seq<T>
    decreases pieces.len(),
{
    if pieces.len() == 0 {
        first
    } else {
        strung(first, pieces.drop_last(), mark) + seq![mark] + pieces.last()
    }
}

/// Splitting gives back the pieces that were strung together, all of them and in order.
pub proof fn law_split_undoes_stringing<T>(first: Seq<T>, pieces: Seq<Seq<T>>, mark: T)
    requires
        !first.contains(mark),
        forall|i: int| 0 <= i < pieces.len() ==> !(#[trigger] pieces[i]).contains(mark),
    ensures
        text::split_on(strung(first, pieces, mark), mark) == seq![first] + pieces,
    decreases pieces.len(),
{
    law_split_without_mark(first, mark);
    if pieces.len() > 0 {
        let front = pieces.drop_last();
        assert forall|i: int| 0 <= i < front.len() implies !(#[trigger] front[i]).contains(mark) by {
            assert(front[i] == pieces[i]);
        }
        law_split_undoes_stringing(first, front, mark);
        assert(!pieces[pieces.len() - 1].contains(mark));
        law_split_without_mark(pieces.last(), mark);
        law_split_at_mark(strung(first, front, mark), mark, pieces.last());
        assert(seq![first] + front + seq![pieces.last()] == seq![first] + pieces);
    } else {
        assert(seq![first] + pieces == seq![first]);
    }
}

/// Joining pieces by a mark is stringing the later ones to the first.
pub proof fn law_join_strings<T>(first: Seq<T>, pieces: Seq<Seq<T>>, mark: T)
    ensures
        text::join_with(seq![first] + pieces, mark) == strung(first, pieces, mark),
    decreases pieces.len(),
{
    let all = seq![first] + pieces;
    if pieces.len() > 0 {
        let front = pieces.drop_last();
        law_join_strings(first, front, mark);
        assert(all.drop_last() == seq![first] + front);
        assert(all.last() == pieces.last());
        let joined = text::join_with(all.drop_last(), mark);
        assert(joined.push(mark) + all.last() == joined + seq![mark] + pieces.last());
    }
}

/// White space parts words, wherever it stands and however much there is of it.
pub proof fn law_words_are_parted(a: Seq<char>, c: char, b: Seq<char>)
    requires
        text::is_white(c),
    ensures
        text::words(a + seq![c] + b) == text::words(a) + text::words(b),
{
    let sep = |c: char| text::is_white(c);
    let full = |w: Seq<char>| w.len() > 0;
    assert(a + seq![c] + b == a.push(c) + b);
    text::lemma_split_concat(a, c, b, sep);
    Seq::filter_distributes_over_add(text::split_by(a, sep), text::split_by(b, sep), full);
}

/// Text without white space is one word, and no text is no word.
pub proof fn law_word_is_whole(s: Seq<char>)
    requires
        forall|i: int| 0 <= i < s.len() ==> !text::is_white(#[trigger] s[i]),
    ensures
        text::words(s) == if s.len() > 0 {
            seq![s]
        } else {
            Seq::<Seq<char>>::empty()
        },
{
    let full = |w: Seq<char>| w.len() > 0;
    let none = Seq::<Seq<char>>::empty();
    text::lemma_split_by_one(s, |c: char| text::is_white(c));
    text::lemma_filter_push(none, s, full);
    assert(none.push(s) == seq![s]);
    assert(none.filter(full) == none) by {
        reveal(Seq::filter);
    }
    assert(none.push(s) == seq![s]);
}

proof fn lemma_trim_start_skips(before: Seq<char>, s: Seq<char>)
    requires
        forall|i: int| 0 <= i < before.len() ==> text::is_white(#[trigger] before[i]),
    ensures
        text::trim_start(before + s) == text::trim_start(s),
    decreases before.len(),
{
    if before.len() == 0 {
        assert(before + s == s);
    } else {
        assert((before + s)[0] == before[0]);
        assert((before + s).skip(1) == before.skip(1) + s);
        assert forall|i: int| 0 <= i < before.skip(1).len() implies text::is_white(
            #[trigger] before.skip(1)[i],
        ) by {
            assert(before.skip(1)[i] == before[i + 1]);
        }
        lemma_trim_start_skips(before.skip(1), s);
    }
}

proof fn lemma_trim_end_skips(s: Seq<char>, after: Seq<char>)
    requires
        forall|i: int| 0 <= i < after.len() ==> text::is_white(#[trigger] after[i]),
    ensures
        text::trim_end(s + after) == text::trim_end(s),
    decreases after.len(),
{
    if after.len() == 0 {
        assert(s + after == s);
    } else {
        assert((s + after).last() == after[after.len() - 1]);
        assert((s + after).drop_last() == s + after.drop_last());
        lemma_trim_end_skips(s, after.drop_last());
    }
}

/// Trimming takes off the white space on the two sides of a text, and nothing else.
pub proof fn law_trim_takes_the_sides_off(before: Seq<char>, s: Seq<char>, after: Seq<char>)
    requires
        forall|i: int| 0 <= i < before.len() ==> text::is_white(#[trigger] before[i]),
        forall|i: int| 0 <= i < after.len() ==> text::is_white(#[trigger] after[i]),
        s.len() > 0 ==> !text::is_white(s[0]) && !text::is_white(s.last()),
    ensures
        text::trimmed(before + s + after) == s,
{
    assert(before + s + after == before + (s + after));
    lemma_trim_start_skips(before, s + after);
    if s.len() == 0 {
        let none = Seq::<char>::empty();
        assert(s + after == after + none);
        lemma_trim_start_skips(after, none);
    } else {
        assert((s + after)[0] == s[0]);
        lemma_trim_end_skips(s, after);
    }
}

/// `find` gives the first place where a pattern occurs, if it occurs.
pub proof fn law_find_gives_the_first_place<T>(s: Seq<T>, pattern: Seq<T>)
    ensures
        match text::find(s, pattern) {
            Some(i) => {
                &&& 0 <= i <= s.len() - pattern.len()
                &&& pattern.is_prefix_of(s.skip(i))
                &&& forall|j: int| 0 <= j < i ==> !pattern.is_prefix_of(#[trigger] s.skip(j))
            },
            None => forall|j: int| 0 <= j <= s.len() ==> !pattern.is_prefix_of(#[trigger] s.skip(j)),
        },
{
    text::lemma_find(s, pattern);
}

/// Text is split where a pattern first occurs and goes on after it; text without the pattern is
/// one piece.
pub proof fn law_split_at_pattern<T>(s: Seq<T>, pattern: Seq<T>, at: int)
    requires
        pattern.len() > 0,
        0 <= at <= s.len(),
        forall|j: int| 0 <= j < at ==> !pattern.is_prefix_of(#[trigger] s.skip(j)),
    ensures
        pattern.is_prefix_of(s.skip(at)) ==> text::split_pattern(s, pattern) == seq![s.take(at)]
            + text::split_pattern(s.skip(at + pattern.len()), pattern),
        at == s.len() ==> text::split_pattern(s, pattern) == seq![s],
{
    assert(s.skip(0) == s);
    if pattern.is_prefix_of(s.skip(at)) {
        text::lemma_first_occurrence(s, pattern, 0, at);
    }
    if at == s.len() {
        text::lemma_no_occurrence(s, pattern, 0);
    }
}

/// The terminated pieces are the pieces between the terminators, without an empty one at the end.
pub proof fn law_terminated_pieces<T>(s: Seq<T>, terminator: Seq<T>)
    requires
        terminator.len() > 0,
    ensures
        ({
            let pieces = text::split_pattern(s, terminator);
            let kept = text::split_terminator(s, terminator);
            &&& pieces.len() > 0
            &&& pieces.last().len() > 0 ==> kept == pieces
            &&& pieces.last().len() == 0 ==> kept.push(Seq::empty()) == pieces
        }),
{
    let pieces = text::split_pattern(s, terminator);
    if pieces.last().len() == 0 {
        assert(pieces.last() == Seq::<T>::empty());
        assert(pieces.drop_last().push(pieces.last()) == pieces);
    }
}

/// Texts in which no colon has a space after it.
pub open spec fn lacks_colon_space(s: Seq<char>) -> bool {
    forall|j: int| 0 <= j && j + 1 < s.len() ==> !(#[trigger] s[j] == ':' && s[j + 1] == ' ')
}

/// A text followed by pieces, with `": "` before each of them.
pub open spec fn coloned(first: Seq<char>, pieces: Seq<Seq<char>>) -> Seq<char>
    decreases pieces.len(),
{
    if pieces.len() == 0 {
        first
    } else {
        first + seq![':', ' '] + coloned(pieces[0], pieces.skip(1))
    }
}

/// Splitting at `": "` gives back the pieces between the occurrences.
pub proof fn law_colons_part(first: Seq<char>, pieces: Seq<Seq<char>>)
    requires
        lacks_colon_space(first),
        forall|i: int| 0 <= i < pieces.len() ==> lacks_colon_space(#[trigger] pieces[i]),
    ensures
        text::split_pattern(coloned(first, pieces), seq![':', ' ']) == seq![first] + pieces,
    decreases pieces.len(),
{
    let glue = seq![':', ' '];
    let n = first.len() as int;
    let s = coloned(first, pieces);
    assert forall|j: int| 0 <= j < n implies !glue.is_prefix_of(#[trigger] s.skip(j)) by {
        if glue.is_prefix_of(s.skip(j)) {
            let start = s.skip(j).subrange(0, 2);
            assert(start == glue);
            assert(start[0] == s[j]);
            assert(start[1] == s[j + 1]);
            assert(s[j] == first[j]);
            if j + 1 < n {
                assert(s[j + 1] == first[j + 1]);
            } else {
                assert(pieces.len() > 0);
                assert(s[j + 1] == ':');
            }
        }
    }
    law_split_at_pattern(s, glue, n);
    if pieces.len() > 0 {
        let rest = coloned(pieces[0], pieces.skip(1));
        assert(s.skip(n).subrange(0, 2) == glue);
        assert(s.take(n) == first);
        assert(s.skip(n + 2) == rest);
        assert forall|i: int| 0 <= i < pieces.skip(1).len() implies lacks_colon_space(
            #[trigger] pieces.skip(1)[i],
        ) by {
            assert(pieces.skip(1)[i] == pieces[i + 1]);
        }
        law_colons_part(pieces[0], pieces.skip(1));
        assert(seq![pieces[0]] + pieces.skip(1) == pieces);
    } else {
        assert(seq![first] + pieces == seq![first]);
    }
}

/// The character for a number below ten.
pub open spec fn digit_char(d: nat) -> char {
    seq!['0', '1', '2', '3', '4', '5', '6', '7', '8', '9'][d as int]
}

/// The digits of a number below ten are one digit, and ten times a number and a digit more has
/// the digits of that number and then that digit.
pub proof fn law_decimal_by_place(n: nat, d: nat)
    requires
        d < 10,
    ensures
        text::decimal(d) == seq![digit_char(d)],
        n > 0 ==> text::decimal(10 * n + d) == text::decimal(n).push(digit_char(d)),
{
    assert((10 * n + d) / 10 == n);
    assert((10 * n + d) % 10 == d);
    assert(text::digit(d) == digit_char(d));
}

/// One more digit makes ten times the number and the digit.
pub proof fn law_number_by_place(s: Seq<char>, d: nat)
    requires
        d < 10,
    ensures
        text::number(seq![digit_char(d)]) == Some(d),
        text::number(s) matches Some(n) ==> text::number(s.push(digit_char(d))) == Some(10 * n + d),
        text::number(seq!['+', digit_char(d)]) == Some(d),
{
    let c = digit_char(d);
    let one = seq![c];
    assert(text::is_digit(c));
    assert(c as int - '0' as int == d);
    assert(text::is_digits(one));
    assert(one.drop_last() == Seq::<char>::empty());
    reveal_with_fuel(text::digits_value, 2);
    assert(text::digits_value(one) == d);
    assert(seq!['+', c].skip(1) == one);
    if text::number(s) is Some {
        let digits = text::unsigned(s);
        let more = s.push(c);
        assert(s.len() > 0);
        assert(more[0] == s[0]);
        assert(more.skip(1) == s.skip(1).push(c));
        assert(text::unsigned(more) == digits.push(c));
        assert forall|i: int| 0 <= i < digits.push(c).len() implies text::is_digit(
            #[trigger] digits.push(c)[i],
        ) by {
            if i < digits.len() {
                assert(digits.push(c)[i] == digits[i]);
            }
        }
        assert(digits.push(c).drop_last() == digits);
    }
}

/// Only digits write a number, with or without one plus sign before them.
pub proof fn law_number_is_digits(s: Seq<char>)
    ensures
        text::number(s) is Some <==> {
            let from: int = if s.len() > 0 && s[0] == '+' { 1 } else { 0 };
            &&& from < s.len()
            &&& forall|i: int| from <= i < s.len() ==> '0' <= #[trigger] s[i] <= '9'
        },
{
    let from: int = if s.len() > 0 && s[0] == '+' { 1 } else { 0 };
    let digits = text::unsigned(s);
    assert(digits == s.skip(from));
    if from < s.len() && (forall|i: int| from <= i < s.len() ==> '0' <= #[trigger] s[i] <= '9') {
        assert forall|i: int| 0 <= i < digits.len() implies text::is_digit(#[trigger] digits[i]) by {
            assert(digits[i] == s[i + from]);
        }
    }
    if text::is_digits(digits) {
        assert forall|i: int| from <= i < s.len() implies '0' <= #[trigger] s[i] <= '9' by {
            assert(text::is_digit(digits[i - from]));
        }
    }
}

}
