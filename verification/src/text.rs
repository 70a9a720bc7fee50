//! Text: splitting, trimming, white space, and decimal numbers.
use vstd::prelude::*;

verus! {

broadcast use vstd::string::group_string_axioms;

/// The pieces of `s` between the elements for which `sep` holds, in order. There is always one
/// piece more than there are separators; pieces may be empty.
pub open spec fn split_by<T>(s: Seq<T>, sep: spec_fn(T) -> bool) -> Seq<Seq<T>>
    decreases s.len(),
{
    if s.len() == 0 {
        seq![Seq::<T>::empty()]
    } else {
        let before = split_by(s.drop_last(), sep);
        if sep(s.last()) {
            before.push(Seq::<T>::empty())
        } else {
            before.drop_last().push(before.last().push(s.last()))
        }
    }
}

/// The pieces of `s` between the occurrences of the element `mark`.
pub open spec fn split_on<T>(s: Seq<T>, mark: T) -> Seq<Seq<T>> {
    split_by(s, |x: T| x == mark)
}

/// The pieces put together again, with `mark` between each two.
pub open spec fn join_with<T>(pieces: Seq<Seq<T>>, mark: T) -> Seq<T>
    decreases pieces.len(),
{
    if pieces.len() == 0 {
        Seq::empty()
    } else if pieces.len() == 1 {
        pieces[0]
    } else {
        join_with(pieces.drop_last(), mark).push(mark) + pieces.last()
    }
}

/// The characters with Unicode's `White_Space` property.
pub open spec fn is_white(c: char) -> bool {
    let u = c as u32;
    ||| 0x9 <= u <= 0xd
    ||| u == 0x20
    ||| u == 0x85
    ||| u == 0xa0
    ||| u == 0x1680
    ||| 0x2000 <= u <= 0x200a
    ||| u == 0x2028
    ||| u == 0x2029
    ||| u == 0x202f
    ||| u == 0x205f
    ||| u == 0x3000
}

/// The words of `s`: its longest runs without white space, in order.
pub open spec fn words(s: Seq<char>) -> Seq<Seq<char>> {
    split_by(s, |c: char| is_white(c)).filter(|w: Seq<char>| w.len() > 0)
}

/// `s` without the white space at its start.
pub open spec fn trim_start(s: Seq<char>) -> Seq<char>
    decreases s.len(),
{
    if s.len() > 0 && is_white(s[0]) {
        trim_start(s.skip(1))
    } else {
        s
    }
}

/// `s` without the white space at its end.
pub open spec fn trim_end(s: Seq<char>) -> Seq<char>
    decreases s.len(),
{
    if s.len() > 0 && is_white(s.last()) {
        trim_end(s.drop_last())
    } else {
        s
    }
}

/// `s` without the white space at its two ends.
pub open spec fn trimmed(s: Seq<char>) -> Seq<char> {
    trim_end(trim_start(s))
}

/// Where `pattern` first occurs in `s`.
pub open spec fn find<T>(s: Seq<T>, pattern: Seq<T>) -> Option<int>
    decreases s.len(),
{
    if pattern.is_prefix_of(s) {
        Some(0)
    } else if s.len() == 0 {
        None
    } else {
        match find(s.skip(1), pattern) {
            Some(i) => Some(i + 1),
            None => None,
        }
    }
}

/// The pieces of `s` between the occurrences of `pattern`, which are taken from left to right
/// without overlap.
pub open spec fn split_pattern<T>(s: Seq<T>, pattern: Seq<T>) -> Seq<Seq<T>>
    decreases s.len(),
    when pattern.len() > 0
{
    proof {
        lemma_find(s, pattern);
    }
    match find(s, pattern) {
        Some(i) => seq![s.take(i)] + split_pattern(s.skip(i + pattern.len()), pattern),
        None => seq![s],
    }
}

/// What `find` finds is an occurrence, and the first one.
pub proof fn lemma_find<T>(s: Seq<T>, pattern: Seq<T>)
    ensures
        match find(s, pattern) {
            Some(i) => {
                &&& 0 <= i <= s.len() - pattern.len()
                &&& pattern.is_prefix_of(s.skip(i))
                &&& forall|j: int| 0 <= j < i ==> !pattern.is_prefix_of(#[trigger] s.skip(j))
            },
            None => forall|j: int| 0 <= j <= s.len() ==> !pattern.is_prefix_of(#[trigger] s.skip(j)),
        },
    decreases s.len(),
{
    assert(s.skip(0) == s);
    if !pattern.is_prefix_of(s) && s.len() > 0 {
        lemma_find(s.skip(1), pattern);
        assert forall|j: int| 0 < j <= s.len() implies #[trigger] s.skip(j) == s.skip(1).skip(j - 1) by {
        }
    }
}

/// The pieces of `s` that end before an occurrence of `terminator` or at the end of `s`; an empty
/// piece at the very end is no piece.
pub open spec fn split_terminator<T>(s: Seq<T>, terminator: Seq<T>) -> Seq<Seq<T>> {
    let pieces = split_pattern(s, terminator);
    if pieces.last().len() == 0 {
        pieces.drop_last()
    } else {
        pieces
    }
}

pub open spec fn is_digit(c: char) -> bool {
    '0' <= c <= '9'
}

/// The number that a sequence of decimal digits stands for.
pub open spec fn digits_value(digits: Seq<char>) -> nat
    decreases digits.len(),
{
    if digits.len() == 0 {
        0
    } else {
        10 * digits_value(digits.drop_last()) + (digits.last() as int - '0' as int) as nat
    }
}

/// One or more decimal digits.
pub open spec fn is_digits(s: Seq<char>) -> bool {
    &&& s.len() > 0
    &&& forall|i: int| 0 <= i < s.len() ==> is_digit(#[trigger] s[i])
}

/// `s` without the `+` at its start, if there is one.
pub open spec fn unsigned(s: Seq<char>) -> Seq<char> {
    if s.len() > 0 && s[0] == '+' {
        s.skip(1)
    } else {
        s
    }
}

/// The number that `s` writes: one or more decimal digits, which a `+` may precede.
pub open spec fn number(s: Seq<char>) -> Option<nat> {
    if is_digits(unsigned(s)) {
        Some(digits_value(unsigned(s)))
    } else {
        None
    }
}

/// The decimal digit for a number below ten.
pub open spec fn digit(n: nat) -> char {
    ('0' as u32 + n) as char
}

/// The decimal digits of `n`, without leading zeros.
pub open spec fn decimal(n: nat) -> Seq<char>
    decreases n,
{
    if n < 10 {
        seq![digit(n)]
    } else {
        decimal(n / 10).push(digit(n % 10))
    }
}

/// The characters of a string.
pub fn chars_of(s: &str) -> (chars: Vec<char>)
    ensures
        chars@ == s@,
{
    let mut chars: Vec<char> = Vec::new();
    for c in it: s.chars()
        invariant
            it.seq() == s@,
            chars@ == s@.take(it.index() as int),
    {
        chars.push(c);
    }
    chars
}

/// Whether a character is white space.
pub fn white(c: char) -> (b: bool)
    ensures
        b == is_white(c),
{
    let u: u32 = c as u32;
    (0x9 <= u && u <= 0xd) || u == 0x20 || u == 0x85 || u == 0xa0 || u == 0x1680 || (0x2000 <= u
        && u <= 0x200a) || u == 0x2028 || u == 0x2029 || u == 0x202f || u == 0x205f || u == 0x3000
}

/// Splits a string at each occurrence of a character.
pub fn split_str(s: &str, mark: char) -> (pieces: Vec<String>)
    ensures
        pieces.deep_view() == split_on(s@, mark),
{
    let chars = chars_of(s);
    let mut pieces: Vec<String> = Vec::new();
    let mut start: usize = 0;
    let mut i: usize = 0;
    assert(s@.subrange(0, 0) == Seq::<char>::empty());
    while i < chars.len()
        invariant
            chars@ == s@,
            start <= i <= chars@.len(),
            split_on(s@.take(i as int), mark) == pieces.deep_view().push(
                s@.subrange(start as int, i as int),
            ),
        decreases chars.len() - i,
    {
        assert(s@.take(i + 1).drop_last() == s@.take(i as int));
        if chars[i] == mark {
            let ghost before = pieces.deep_view();
            pieces.push(s.substring_char(start, i).to_string());
            assert(pieces.deep_view() == before.push(s@.subrange(start as int, i as int)));
            start = i + 1;
            assert(s@.subrange(start as int, i + 1) == Seq::<char>::empty());
        } else {
            let ghost piece = s@.subrange(start as int, i as int);
            assert(piece.push(s@[i as int]) == s@.subrange(start as int, i + 1));
            assert(pieces.deep_view().push(piece).drop_last() == pieces.deep_view());
        }
        i = i + 1;
    }
    assert(s@.take(i as int) == s@);
    pieces.push(s.substring_char(start, i).to_string());
    pieces
}

/// Splits a string into its words.
pub fn split_words(s: &str) -> (found: Vec<String>)
    ensures
        found.deep_view() == words(s@),
{
    let chars = chars_of(s);
    let mut found: Vec<String> = Vec::new();
    let mut start: usize = 0;
    let mut i: usize = 0;
    let ghost sep = |c: char| is_white(c);
    let ghost full = |w: Seq<char>| w.len() > 0;
    let ghost mut pieces = Seq::<Seq<char>>::empty();
    assert(s@.subrange(0, 0) == Seq::<char>::empty());
    assert(pieces.filter(full) == Seq::<Seq<char>>::empty()) by {
        reveal(Seq::filter);
    }
    while i < chars.len()
        invariant
            chars@ == s@,
            start <= i <= chars@.len(),
            sep == |c: char| is_white(c),
            full == |w: Seq<char>| w.len() > 0,
            split_by(s@.take(i as int), sep) == pieces.push(s@.subrange(start as int, i as int)),
            found.deep_view() == pieces.filter(full),
        decreases chars.len() - i,
    {
        let ghost piece = s@.subrange(start as int, i as int);
        assert(s@.take(i + 1).drop_last() == s@.take(i as int));
        if white(chars[i]) {
            if start < i {
                let ghost before = found.deep_view();
                found.push(s.substring_char(start, i).to_string());
                assert(found.deep_view() == before.push(piece));
            }
            proof {
                lemma_filter_push(pieces, piece, full);
                pieces = pieces.push(piece);
            }
            start = i + 1;
            assert(s@.subrange(start as int, i + 1) == Seq::<char>::empty());
        } else {
            assert(piece.push(s@[i as int]) == s@.subrange(start as int, i + 1));
            assert(pieces.push(piece).drop_last() == pieces);
        }
        i = i + 1;
    }
    assert(s@.take(i as int) == s@);
    proof {
        lemma_filter_push(pieces, s@.subrange(start as int, i as int), full);
    }
    if start < i {
        let ghost before = found.deep_view();
        found.push(s.substring_char(start, i).to_string());
        assert(found.deep_view() == before.push(s@.subrange(start as int, i as int)));
    }
    found
}

/// What is kept of a sequence with one element more.
pub proof fn lemma_filter_push<T>(s: Seq<T>, x: T, keep: spec_fn(T) -> bool)
    ensures
        s.push(x).filter(keep) == if keep(x) {
            s.filter(keep).push(x)
        } else {
            s.filter(keep)
        },
{
    reveal(Seq::filter);
    assert(s.push(x).drop_last() == s);
}

/// What is kept of a sequence is to be kept, and comes from the sequence.
pub proof fn lemma_filter_keeps<T>(s: Seq<T>, keep: spec_fn(T) -> bool, i: int)
    requires
        0 <= i < s.filter(keep).len(),
    ensures
        keep(s.filter(keep)[i]),
        exists|k: int| 0 <= k < s.len() && s[k] == s.filter(keep)[i],
    decreases s.len(),
{
    reveal(Seq::filter);
    let front = s.drop_last();
    if i < front.filter(keep).len() {
        lemma_filter_keeps(front, keep, i);
        let k = choose|k: int| 0 <= k < front.len() && front[k] == front.filter(keep)[i];
        assert(s[k] == s.filter(keep)[i]);
    } else {
        assert(s[s.len() - 1] == s.filter(keep)[i]);
    }
}

/// No piece holds a separator.
pub proof fn lemma_piece_lacks_separators<T>(s: Seq<T>, sep: spec_fn(T) -> bool, i: int)
    requires
        0 <= i < split_by(s, sep).len(),
    ensures
        forall|j: int|
            0 <= j < split_by(s, sep)[i].len() ==> !sep(#[trigger] split_by(s, sep)[i][j]),
    decreases s.len(),
{
    if s.len() > 0 {
        let before = split_by(s.drop_last(), sep);
        lemma_split_by_nonempty(s.drop_last(), sep);
        if i < before.len() {
            lemma_piece_lacks_separators(s.drop_last(), sep, i);
        }
        let piece = split_by(s, sep)[i];
        assert forall|j: int| 0 <= j < piece.len() implies !sep(#[trigger] piece[j]) by {
            if i < before.len() && j < before[i].len() {
                assert(piece[j] == before[i][j]);
            } else {
                assert(piece[j] == s.last());
            }
        }
    }
}

/// Cuts the white space off the two ends of a string.
pub fn trim(s: &str) -> (cut: String)
    ensures
        cut@ == trimmed(s@),
{
    let chars = chars_of(s);
    let mut start: usize = 0;
    assert(s@.skip(0) == s@);
    while start < chars.len() && white(chars[start])
        invariant
            chars@ == s@,
            start <= chars@.len(),
            trim_start(s@) == trim_start(s@.skip(start as int)),
        decreases chars.len() - start,
    {
        assert(s@.skip(start as int).skip(1) == s@.skip(start + 1));
        start = start + 1;
    }
    let mut end: usize = chars.len();
    assert(s@.subrange(start as int, end as int) == s@.skip(start as int));
    while start < end && white(chars[end - 1])
        invariant
            chars@ == s@,
            start <= end <= chars@.len(),
            trimmed(s@) == trim_end(s@.subrange(start as int, end as int)),
        decreases end,
    {
        assert(s@.subrange(start as int, end as int).drop_last() == s@.subrange(
            start as int,
            end - 1,
        ));
        end = end - 1;
    }
    s.substring_char(start, end).to_string()
}

/// Splits a string into the pieces that `terminator` ends; the last piece may go without it.
pub fn split_terminated(s: &str, terminator: &str) -> (pieces: Vec<String>)
    requires
        terminator@.len() > 0,
    ensures
        pieces.deep_view() == split_terminator(s@, terminator@),
{
    let chars = chars_of(s);
    let pattern = chars_of(terminator);
    let mut pieces: Vec<String> = Vec::new();
    let mut start: usize = 0;
    let mut i: usize = 0;
    assert(s@.skip(0) == s@);
    assert(pieces.deep_view() + split_pattern(s@, terminator@) == split_pattern(s@, terminator@));
    while i < chars.len()
        invariant
            chars@ == s@,
            pattern@ == terminator@,
            terminator@.len() > 0,
            start <= i <= chars@.len(),
            forall|j: int| start <= j < i ==> !terminator@.is_prefix_of(#[trigger] s@.skip(j)),
            pieces.deep_view() + split_pattern(s@.skip(start as int), terminator@)
                == split_pattern(s@, terminator@),
        decreases chars.len() - i,
    {
        if starts_at(&chars, i, &pattern) {
            let ghost before = pieces.deep_view();
            let ghost piece = s@.subrange(start as int, i as int);
            proof {
                lemma_first_occurrence(s@, terminator@, start as int, i as int);
                assert(s@.skip(start as int).take(i - start) == piece);
                assert(s@.skip(start as int).skip(i - start + terminator@.len()) == s@.skip(
                    i + terminator@.len(),
                ));
            }
            pieces.push(s.substring_char(start, i).to_string());
            assert(pieces.deep_view() == before.push(piece));
            start = i + pattern.len();
            i = start;
            assert(before.push(piece) + split_pattern(s@.skip(start as int), terminator@) == before
                + (seq![piece] + split_pattern(s@.skip(start as int), terminator@)));
        } else {
            i = i + 1;
        }
    }
    proof {
        lemma_no_occurrence(s@, terminator@, start as int);
        assert(s@.skip(start as int) == s@.subrange(start as int, i as int));
    }
    let ghost before = pieces.deep_view();
    if start < i {
        pieces.push(s.substring_char(start, i).to_string());
        assert(pieces.deep_view() == before.push(s@.skip(start as int)));
    } else {
        assert(split_pattern(s@, terminator@).drop_last() == before);
    }
    pieces
}

/// Whether `pattern` occurs in `chars` at `at`.
fn starts_at(chars: &Vec<char>, at: usize, pattern: &Vec<char>) -> (b: bool)
    requires
        at <= chars@.len(),
    ensures
        b == pattern@.is_prefix_of(chars@.skip(at as int)),
        b ==> at + pattern@.len() <= chars@.len(),
{
    let len: usize = chars.len();
    if len - at < pattern.len() {
        return false;
    }
    let mut i: usize = 0;
    while i < pattern.len()
        invariant
            len == chars@.len(),
            at + pattern@.len() <= len,
            i <= pattern@.len(),
            forall|j: int| 0 <= j < i ==> pattern@[j] == #[trigger] chars@.skip(at as int)[j],
        decreases pattern.len() - i,
    {
        if chars[at + i] != pattern[i] {
            assert(pattern@[i as int] != chars@.skip(at as int)[i as int]);
            return false;
        }
        i = i + 1;
    }
    assert(chars@.skip(at as int).take(pattern@.len() as int) == pattern@);
    true
}

/// The first place from `from` on where `pattern` occurs is what `find` finds.
pub proof fn lemma_first_occurrence<T>(s: Seq<T>, pattern: Seq<T>, from: int, at: int)
    requires
        0 <= from <= at <= s.len(),
        pattern.is_prefix_of(s.skip(at)),
        forall|j: int| from <= j < at ==> !pattern.is_prefix_of(#[trigger] s.skip(j)),
    ensures
        find(s.skip(from), pattern) == Some(at - from),
{
    let rest = s.skip(from);
    lemma_find(rest, pattern);
    assert(rest.skip(at - from) == s.skip(at));
    if let Some(i) = find(rest, pattern) {
        assert(rest.skip(i) == s.skip(from + i));
    }
}

/// Where `pattern` does not occur from `from` on, the rest is one piece.
pub proof fn lemma_no_occurrence<T>(s: Seq<T>, pattern: Seq<T>, from: int)
    requires
        0 <= from <= s.len(),
        pattern.len() > 0,
        forall|j: int| from <= j < s.len() ==> !pattern.is_prefix_of(#[trigger] s.skip(j)),
    ensures
        split_pattern(s.skip(from), pattern) == seq![s.skip(from)],
{
    let rest = s.skip(from);
    lemma_find(rest, pattern);
    if let Some(i) = find(rest, pattern) {
        assert(rest.skip(i) == s.skip(from + i));
    }
}

/// Reads a number: decimal digits, which a `+` may precede. `None` where the string writes no
/// number, or one that does not fit.
pub fn parse_usize(s: &str) -> (n: Option<usize>)
    ensures
        match n {
            Some(v) => number(s@) == Some(v as nat),
            None => number(s@) is None || number(s@)->0 > usize::MAX,
        },
{
    let chars = chars_of(s);
    let len: usize = chars.len();
    let start: usize = if len > 0 && chars[0] == '+' {
        1
    } else {
        0
    };
    let ghost digits = unsigned(s@);
    assert(s@.skip(0) == s@);
    if start == len {
        return None;
    }
    let mut v: usize = 0;
    let mut i: usize = start;
    while i < len
        invariant
            chars@ == s@,
            len == s@.len(),
            start <= i <= len,
            digits == s@.skip(start as int),
            forall|j: int| 0 <= j < i - start ==> is_digit(#[trigger] digits[j]),
            v == digits_value(digits.take(i - start)),
            digits == unsigned(s@),
        decreases len - i,
    {
        let c: char = chars[i];
        assert(digits[i - start] == c);
        if c < '0' || '9' < c {
            assert(!is_digit(digits[i - start]));
            return None;
        }
        let d: usize = c as usize - '0' as usize;
        assert(digits.take(i - start + 1).drop_last() == digits.take(i - start));
        proof {
            if number(s@) is Some {
                lemma_digits_value_grows(digits, i - start + 1);
            }
        }
        if v > (usize::MAX - d) / 10 {
            return None;
        }
        v = 10 * v + d;
        i = i + 1;
    }
    assert(digits.take(i - start) == digits);
    Some(v)
}

/// A number is at least what its leading digits stand for.
proof fn lemma_digits_value_grows(digits: Seq<char>, k: int)
    requires
        0 <= k <= digits.len(),
    ensures
        digits_value(digits.take(k)) <= digits_value(digits),
    decreases digits.len(),
{
    if k == digits.len() {
        assert(digits.take(k) == digits);
    } else {
        assert(digits.drop_last().take(k) == digits.take(k));
        lemma_digits_value_grows(digits.drop_last(), k);
    }
}

/// Writes a number in decimal.
pub fn write_decimal(n: usize) -> (s: String)
    ensures
        s@ == decimal(n as nat),
    decreases n,
{
    if n < 10 {
        let mut s = String::new();
        s.append(digit_str(n));
        s
    } else {
        let mut s = write_decimal(n / 10);
        s.append(digit_str(n % 10));
        assert(decimal((n / 10) as nat) + seq![digit((n % 10) as nat)] == decimal(n as nat));
        s
    }
}

fn digit_str(n: usize) -> (s: &'static str)
    requires
        n < 10,
    ensures
        s@ == seq![digit(n as nat)],
{
    proof {
        reveal_strlit("0");
        reveal_strlit("1");
        reveal_strlit("2");
        reveal_strlit("3");
        reveal_strlit("4");
        reveal_strlit("5");
        reveal_strlit("6");
        reveal_strlit("7");
        reveal_strlit("8");
        reveal_strlit("9");
    }
    match n {
        0 => "0",
        1 => "1",
        2 => "2",
        3 => "3",
        4 => "4",
        5 => "5",
        6 => "6",
        7 => "7",
        8 => "8",
        _ => "9",
    }
}

/// A number of 64 bits has at most twenty decimal digits.
pub proof fn lemma_decimal_short(n: nat)
    requires
        n <= u64::MAX,
    ensures
        decimal(n).len() <= 20,
{
    reveal_with_fuel(ten_to, 21);
    lemma_decimal_length(n, 20);
}

spec fn ten_to(k: nat) -> nat
    decreases k,
{
    if k == 0 {
        1
    } else {
        10 * ten_to((k - 1) as nat)
    }
}

proof fn lemma_decimal_length(n: nat, k: nat)
    requires
        k > 0,
        n < ten_to(k),
    ensures
        decimal(n).len() <= k,
    decreases k,
{
    if n >= 10 {
        reveal_with_fuel(ten_to, 2);
        lemma_decimal_length(n / 10, (k - 1) as nat);
    }
}

/// A number reads back from its decimal digits.
pub proof fn law_decimal_reads_back(n: nat)
    ensures
        number(decimal(n)) == Some(n),
{
    lemma_decimal_digits(n);
}

/// Decimal digits are digits, and stand for the number that they were written for.
pub proof fn lemma_decimal_digits(n: nat)
    ensures
        is_digits(decimal(n)),
        digits_value(decimal(n)) == n,
    decreases n,
{
    reveal_with_fuel(digits_value, 2);
    if n < 10 {
        assert(decimal(n).drop_last() == Seq::<char>::empty());
    } else {
        lemma_decimal_digits(n / 10);
        assert(decimal(n).drop_last() == decimal(n / 10));
    }
}

/// Splitting and joining: the pieces between the occurrences of a mark, joined by that mark, are
/// the text again, and no piece holds the mark.
pub proof fn law_split_joins_back<T>(s: Seq<T>, mark: T)
    ensures
        join_with(split_on(s, mark), mark) == s,
        forall|i: int| 0 <= i < split_on(s, mark).len() ==> !(#[trigger] split_on(s, mark)[i]).contains(mark),
    decreases s.len(),
{
    let pieces = split_on(s, mark);
    if s.len() > 0 {
        let before = split_on(s.drop_last(), mark);
        law_split_joins_back(s.drop_last(), mark);
        lemma_split_nonempty(s.drop_last(), mark);
        assert(pieces.drop_last() == if s.last() == mark {
            before
        } else {
            before.drop_last()
        });
        assert(s.drop_last().push(s.last()) == s);
        if s.last() != mark {
            assert forall|i: int| 0 <= i < pieces.len() implies !(#[trigger] pieces[i]).contains(mark) by {
                if i == pieces.len() - 1 {
                    assert(!before[i].contains(mark));
                    assert forall|j: int| 0 <= j < pieces[i].len() implies pieces[i][j] != mark by {
                        if j < before[i].len() {
                            assert(before[i].contains(before[i][j]));
                        }
                    }
                } else {
                    assert(pieces[i] == before[i]);
                }
            }
            if before.len() > 1 {
                assert(join_with(pieces, mark) == join_with(before, mark).push(s.last()));
            }
        } else {
            assert(join_with(pieces, mark) == join_with(before, mark).push(mark));
        }
    }
}

/// Text is split at a separator, part by part.
pub proof fn lemma_split_concat<T>(a: Seq<T>, mark: T, b: Seq<T>, sep: spec_fn(T) -> bool)
    requires
        sep(mark),
    ensures
        split_by(a.push(mark) + b, sep) == split_by(a, sep) + split_by(b, sep),
    decreases b.len(),
{
    let s = a.push(mark) + b;
    if b.len() == 0 {
        assert(s == a.push(mark));
        assert(s.drop_last() == a);
        assert(split_by(b, sep) == seq![Seq::<T>::empty()]);
    } else {
        lemma_split_concat(a, mark, b.drop_last(), sep);
        lemma_split_by_nonempty(b.drop_last(), sep);
        assert(s.drop_last() == a.push(mark) + b.drop_last());
        let front = split_by(a, sep);
        let back = split_by(b.drop_last(), sep);
        assert((front + back).drop_last() == front + back.drop_last());
        assert((front + back).last() == back.last());
    }
}

/// Text is split at a mark, part by part.
pub proof fn lemma_split_on_concat<T>(a: Seq<T>, mark: T, b: Seq<T>)
    ensures
        split_on(a.push(mark) + b, mark) == split_on(a, mark) + split_on(b, mark),
{
    lemma_split_concat(a, mark, b, |x: T| x == mark);
}

/// Text without a separator is one piece.
pub proof fn lemma_split_by_one<T>(s: Seq<T>, sep: spec_fn(T) -> bool)
    requires
        forall|i: int| 0 <= i < s.len() ==> !sep(#[trigger] s[i]),
    ensures
        split_by(s, sep) == seq![s],
    decreases s.len(),
{
    if s.len() > 0 {
        lemma_split_by_one(s.drop_last(), sep);
        assert(s.drop_last().push(s.last()) == s);
        assert(seq![s.drop_last()].drop_last() == Seq::<Seq<T>>::empty());
    } else {
        assert(s == Seq::<T>::empty());
    }
}

/// There is always a piece.
pub proof fn lemma_split_by_nonempty<T>(s: Seq<T>, sep: spec_fn(T) -> bool)
    ensures
        split_by(s, sep).len() > 0,
    decreases s.len(),
{
    if s.len() > 0 {
        lemma_split_by_nonempty(s.drop_last(), sep);
    }
}

/// There is always a piece.
pub proof fn lemma_split_nonempty<T>(s: Seq<T>, mark: T)
    ensures
        split_on(s, mark).len() > 0,
{
    lemma_split_by_nonempty(s, |x: T| x == mark);
}

/// Text without the mark is one piece.
pub proof fn lemma_split_one<T>(s: Seq<T>, mark: T)
    requires
        forall|i: int| 0 <= i < s.len() ==> s[i] != mark,
    ensures
        split_on(s, mark) == seq![s],
{
    lemma_split_by_one(s, |x: T| x == mark);
}

}
