//! The text of a solution: the numbers of the cities in the order of the
//! visit, in decimal, each followed by a space. Solving writes it; showing
//! a tour reads it back.

use vstd::prelude::*;

verus! {

/// Why a solution cannot be used.
#[derive(Debug, Clone, Copy, PartialEq, Eq, Structural)]
pub enum SolutionError {
    /// A word of the text is no number that fits the machine.
    Malformed,
    /// The solution names a destination that the instance does not hold.
    UnknownDestination,
}

/// The character of a digit.
pub open spec fn digit(d: nat) -> u8 {
    (48 + d) as u8
}

/// The decimal digits of a number, most significant first, without leading
/// zeros.
pub open spec fn decimal(n: nat) -> Seq<u8>
    decreases n,
{
    if n < 10 {
        seq![digit(n)]
    } else {
        decimal(n / 10).push(digit(n % 10))
    }
}

/// The decimal form of an integer: a minus sign before the digits of a
/// negative one.
pub open spec fn signed_decimal(v: int) -> Seq<u8> {
    if v < 0 {
        seq![45u8] + decimal((-v) as nat)
    } else {
        decimal(v as nat)
    }
}

/// The text of a solution: each value in decimal, followed by a space.
pub open spec fn line_of(values: Seq<isize>) -> Seq<u8>
    decreases values.len(),
{
    if values.len() == 0 {
        Seq::empty()
    } else {
        line_of(values.drop_last()) + signed_decimal(values.last() as int).push(32u8)
    }
}

/// Appends the decimal digits of `n`.
fn push_decimal(out: &mut Vec<u8>, n: u128)
    ensures
        final(out)@ == old(out)@ + decimal(n as nat),
{
    let mut low: Vec<u8> = Vec::new();
    let mut m = n;
    while m >= 10
        invariant
            decimal(n as nat) == decimal(m as nat) + low@.reverse(),
        decreases m,
    {
        let d = (48 + m % 10) as u8;
        let ghost before = low@;
        low.push(d);
        proof {
            assert(d == digit((m % 10) as nat));
            assert(low@.reverse() =~= seq![d] + before.reverse());
            assert(decimal(m as nat) == decimal((m / 10) as nat).push(d));
            assert(decimal((m / 10) as nat).push(d) + before.reverse() =~= decimal(
                (m / 10) as nat,
            ) + (seq![d] + before.reverse()));
        }
        m = m / 10;
    }
    let ghost start = out@;
    out.push((48 + m) as u8);
    assert(out@ =~= start + decimal(m as nat));
    let mut i = low.len();
    while i > 0
        invariant
            i <= low@.len(),
            out@ == start + decimal(m as nat) + low@.reverse().take(low@.len() - i),
        decreases i,
    {
        i -= 1;
        out.push(low[i]);
        proof {
            let rev = low@.reverse();
            let taken = low@.len() - i;
            assert(rev[taken - 1] == low@[i as int]);
            assert(rev.take(taken) =~= rev.take(taken - 1).push(rev[taken - 1]));
            assert(out@ =~= start + decimal(m as nat) + rev.take(taken));
        }
    }
    assert(low@.reverse().take(low@.len() as int) =~= low@.reverse());
    assert(out@ =~= start + (decimal(m as nat) + low@.reverse()));
}

/// Writes a solution: the values in decimal, each followed by a space.
pub fn write_solution(values: &[isize]) -> (r: Vec<u8>)
    ensures
        r@ == line_of(values@),
{
    let mut out: Vec<u8> = Vec::new();
    let mut i: usize = 0;
    assert(values@.take(0) =~= Seq::<isize>::empty());
    while i < values.len()
        invariant
            i <= values@.len(),
            out@ == line_of(values@.take(i as int)),
        decreases values.len() - i,
    {
        let v = values[i];
        let ghost before = out@;
        if v < 0 {
            out.push(45u8);
            push_decimal(&mut out, (-(v as i128)) as u128);
        } else {
            push_decimal(&mut out, v as u128);
        }
        out.push(32u8);
        proof {
            let next = values@.take(i + 1);
            assert(next.drop_last() =~= values@.take(i as int));
            assert(next.last() == v);
            assert(out@ =~= before + signed_decimal(v as int).push(32u8));
        }
        i += 1;
    }
    assert(values@.take(i as int) =~= values@);
    out
}

/// Whether a byte separates two words: a space, a tab, a line feed, a
/// vertical tab, a form feed or a carriage return.
pub open spec fn is_space(b: u8) -> bool {
    b == 32 || 9 <= b <= 13
}

/// Whether a byte is a decimal digit.
pub open spec fn is_digit(b: u8) -> bool {
    48 <= b <= 57
}

/// The length of the word at the start of `s`: the bytes before the first
/// separator.
pub open spec fn word_len(s: Seq<u8>) -> nat
    decreases s.len(),
{
    if s.len() == 0 || is_space(s[0]) {
        0
    } else {
        1 + word_len(s.skip(1))
    }
}

/// The words of a text: its longest runs of bytes that are no separators,
/// from left to right.
pub open spec fn words(s: Seq<u8>) -> Seq<Seq<u8>>
    decreases s.len(),
    via words_decreases
{
    if s.len() == 0 {
        Seq::empty()
    } else if is_space(s[0]) {
        words(s.skip(1))
    } else {
        seq![s.take(word_len(s) as int)] + words(s.skip(word_len(s) as int))
    }
}

#[via_fn]
proof fn words_decreases(s: Seq<u8>) {
    if s.len() > 0 && !is_space(s[0]) {
        lemma_word_len_bounds(s);
    }
}

/// A word is no longer than its text, and not empty where the text starts
/// with something else than a separator.
pub proof fn lemma_word_len_bounds(s: Seq<u8>)
    ensures
        word_len(s) <= s.len(),
        s.len() > 0 && !is_space(s[0]) ==> word_len(s) >= 1,
    decreases s.len(),
{
    if s.len() > 0 && !is_space(s[0]) {
        lemma_word_len_bounds(s.skip(1));
    }
}

/// The number that a run of digits stands for.
pub open spec fn digits_value(ds: Seq<u8>) -> nat
    decreases ds.len(),
{
    if ds.len() == 0 {
        0
    } else {
        digits_value(ds.drop_last()) * 10 + (ds.last() - 48) as nat
    }
}

/// The digits of a word: the word without the plus sign that may stand
/// before them.
pub open spec fn digits_of(w: Seq<u8>) -> Seq<u8> {
    if w.len() > 0 && w[0] == 43 {
        w.skip(1)
    } else {
        w
    }
}

/// The number that a word stands for: one digit or more, after a plus sign
/// or without one. Any other word stands for none.
pub open spec fn number(w: Seq<u8>) -> Option<nat> {
    let ds = digits_of(w);
    if ds.len() > 0 && (forall|i: int| 0 <= i < ds.len() ==> is_digit(#[trigger] ds[i])) {
        Some(digits_value(ds))
    } else {
        None
    }
}

/// Every word of the text is a number that fits the machine.
pub open spec fn readable(text: Seq<u8>) -> bool {
    forall|i: int|
        0 <= i < words(text).len() ==> number(#[trigger] words(text)[i]) is Some && number(
            words(text)[i],
        )->0 <= usize::MAX
}

/// The values are the numbers of the words of the text, word by word.
pub open spec fn reads_as(text: Seq<u8>, values: Seq<usize>) -> bool {
    &&& values.len() == words(text).len()
    &&& forall|i: int|
        0 <= i < values.len() ==> number(#[trigger] words(text)[i]) == Some(values[i] as nat)
}

/// Reads a solution: the numbers of its words, in order. A text without
/// words is the empty solution.
pub fn read_solution(text: &[u8]) -> (r: Result<Vec<usize>, SolutionError>)
    ensures
        r is Ok <==> readable(text@),
        r is Ok ==> reads_as(text@, r->Ok_0@),
        r is Err ==> r->Err_0 == SolutionError::Malformed,
{
    let mut out: Vec<usize> = Vec::new();
    let ghost mut done: Seq<Seq<u8>> = Seq::empty();
    let mut pos: usize = 0;
    assert(text@.skip(0) =~= text@);
    while pos < text.len()
        invariant
            pos <= text@.len(),
            words(text@) == done + words(text@.skip(pos as int)),
            done.len() == out@.len(),
            forall|i: int| 0 <= i < done.len() ==> number(#[trigger] done[i]) == Some(out@[i] as nat),
        decreases text.len() - pos,
    {
        let ghost rest = text@.skip(pos as int);
        if byte_is_space(text[pos]) {
            assert(rest[0] == text@[pos as int]);
            assert(rest.skip(1) =~= text@.skip(pos + 1));
            pos += 1;
            continue;
        }
        let start = pos;
        let mut end = pos;
        while end < text.len() && !byte_is_space(text[end])
            invariant
                start <= end <= text@.len(),
                forall|j: int| start <= j < end ==> !is_space(#[trigger] text@[j]),
            decreases text.len() - end,
        {
            end += 1;
        }
        let ghost word = text@.subrange(start as int, end as int);
        proof {
            lemma_word_at(text@, start as int, end as int);
            assert(rest.take(end - start) =~= word);
            assert(rest.skip(end - start) =~= text@.skip(end as int));
            assert(rest[0] == text@[start as int]);
            assert(words(rest) == seq![word] + words(text@.skip(end as int)));
            assert(words(text@) =~= done.push(word) + words(text@.skip(end as int)));
            assert(words(text@)[done.len() as int] == word);
        }
        let mut i = start;
        if text[i] == 43u8 {
            i += 1;
        }
        let first = i;
        let ghost ds = digits_of(word);
        proof {
            assert(word[0] == text@[start as int]);
            assert(ds =~= text@.subrange(first as int, end as int));
        }
        if first == end {
            proof {
                assert(number(word) is None);
            }
            return Err(SolutionError::Malformed);
        }
        let mut value: usize = 0;
        while i < end
            invariant
                first <= i <= end <= text@.len(),
                ds == text@.subrange(first as int, end as int),
                forall|j: int| 0 <= j < i - first ==> is_digit(#[trigger] ds[j]),
                value == digits_value(ds.take(i - first)),
                words(text@)[done.len() as int] == word,
                done.len() < words(text@).len(),
                ds == digits_of(word),
            decreases end - i,
        {
            let b = text[i];
            proof {
                assert(ds[i - first] == b);
                assert(ds.take(i - first + 1).drop_last() =~= ds.take(i - first));
                assert(ds.take(i - first + 1).last() == b);
            }
            if b < 48 || b > 57 {
                proof {
                    assert(!is_digit(ds[i - first]));
                    assert(number(word) is None);
                }
                return Err(SolutionError::Malformed);
            }
            let d = (b - 48) as usize;
            if value > (usize::MAX - d) / 10 {
                proof {
                    lemma_digits_value_prefix(ds, i - first + 1);
                    assert(digits_value(ds.take(i - first + 1)) == value * 10 + d);
                    assert(value * 10 + d > usize::MAX) by (nonlinear_arith)
                        requires
                            value > (usize::MAX - d) / 10,
                            0 <= d <= 9,
                    ;
                    if number(word) is Some {
                        assert(number(word)->0 == digits_value(ds));
                    }
                }
                return Err(SolutionError::Malformed);
            }
            assert(value * 10 + d <= usize::MAX) by (nonlinear_arith)
                requires
                    value <= (usize::MAX - d) / 10,
                    0 <= d <= 9,
            ;
            value = value * 10 + d;
            i += 1;
        }
        proof {
            assert(ds.take(end - first) =~= ds);
            assert(number(word) == Some(value as nat));
            done = done.push(word);
        }
        out.push(value);
        pos = end;
    }
    proof {
        assert(text@.skip(pos as int) =~= Seq::<u8>::empty());
        assert(words(text@) =~= done);
    }
    Ok(out)
}

/// Whether a byte separates two words.
fn byte_is_space(b: u8) -> (r: bool)
    ensures
        r == is_space(b),
{
    b == 32 || (9 <= b && b <= 13)
}

/// The word that starts at `start` ends at `end`, where the bytes between
/// the two are no separators and one stands at `end`, or the text ends.
proof fn lemma_word_at(s: Seq<u8>, start: int, end: int)
    requires
        0 <= start <= end <= s.len(),
        forall|j: int| start <= j < end ==> !is_space(#[trigger] s[j]),
        end == s.len() || is_space(s[end]),
    ensures
        word_len(s.skip(start)) == end - start,
    decreases end - start,
{
    let rest = s.skip(start);
    if start < end {
        assert(rest[0] == s[start]);
        assert(rest.skip(1) =~= s.skip(start + 1));
        lemma_word_at(s, start + 1, end);
    } else if end < s.len() {
        assert(rest[0] == s[end]);
    }
}

/// More digits make no smaller number.
proof fn lemma_digits_value_prefix(ds: Seq<u8>, n: int)
    requires
        0 <= n <= ds.len(),
    ensures
        digits_value(ds.take(n)) <= digits_value(ds),
    decreases ds.len() - n,
{
    if n < ds.len() {
        lemma_digits_value_prefix(ds, n + 1);
        assert(ds.take(n + 1).drop_last() =~= ds.take(n));
    } else {
        assert(ds.take(n) =~= ds);
    }
}

/// The decimal form of a number is a word made of digits, and stands for
/// that number.
pub proof fn lemma_decimal_number(n: nat)
    ensures
        decimal(n).len() >= 1,
        forall|i: int| 0 <= i < decimal(n).len() ==> is_digit(#[trigger] decimal(n)[i]),
        digits_value(decimal(n)) == n,
        number(decimal(n)) == Some(n),
    decreases n,
{
    let text = decimal(n);
    if n < 10 {
        assert(text.drop_last() =~= Seq::<u8>::empty());
        assert(digits_value(text.drop_last()) == 0);
    } else {
        lemma_decimal_number(n / 10);
        assert(text.drop_last() =~= decimal(n / 10));
        assert(text.last() == digit(n % 10));
    }
    assert(is_digit(text[0]));
    assert(digits_of(text) == text);
}

/// A text that ends with a separator, or is empty, shares no word with
/// what follows it.
proof fn lemma_words_concat(a: Seq<u8>, b: Seq<u8>)
    requires
        a.len() == 0 || is_space(a.last()),
    ensures
        words(a + b) == words(a) + words(b),
    decreases a.len(),
{
    let whole = a + b;
    if a.len() == 0 {
        assert(whole =~= b);
        assert(words(a) + words(b) =~= words(b));
    } else if is_space(a[0]) {
        assert(whole[0] == a[0]);
        assert(whole.skip(1) =~= a.skip(1) + b);
        if a.len() > 1 {
            assert(a.skip(1).last() == a.last());
        }
        lemma_words_concat(a.skip(1), b);
    } else {
        lemma_word_len_prefix(a, b);
        lemma_word_len_bounds(a);
        let n = word_len(a) as int;
        assert(whole[0] == a[0]);
        assert(whole.take(n) =~= a.take(n));
        assert(whole.skip(n) =~= a.skip(n) + b);
        assert(a.skip(n).last() == a.last());
        lemma_words_concat(a.skip(n), b);
        assert((seq![a.take(n)] + words(a.skip(n))) + words(b) =~= seq![a.take(n)] + (words(
            a.skip(n),
        ) + words(b)));
    }
}

/// A word that ends within a text is not made longer by what follows the
/// text.
proof fn lemma_word_len_prefix(a: Seq<u8>, b: Seq<u8>)
    requires
        a.len() > 0,
        is_space(a.last()),
    ensures
        word_len(a + b) == word_len(a),
        word_len(a) < a.len(),
    decreases a.len(),
{
    let whole = a + b;
    assert(whole[0] == a[0]);
    if !is_space(a[0]) {
        assert(a.len() > 1);
        assert(whole.skip(1) =~= a.skip(1) + b);
        assert(a.skip(1).last() == a.last());
        lemma_word_len_prefix(a.skip(1), b);
    }
}

/// The words of a written solution are the decimal forms of its values.
proof fn lemma_words_of_line(values: Seq<isize>)
    requires
        forall|i: int| 0 <= i < values.len() ==> (#[trigger] values[i]) >= 0,
    ensures
        line_of(values).len() == 0 || is_space(line_of(values).last()),
        words(line_of(values)) == values.map_values(|v: isize| decimal(v as nat)),
    decreases values.len(),
{
    let form = |v: isize| decimal(v as nat);
    if values.len() == 0 {
        assert(words(line_of(values)) =~= values.map_values(form));
    } else {
        let front = values.drop_last();
        let word = decimal(values.last() as nat);
        let tail = word.push(32u8);
        lemma_words_of_line(front);
        lemma_decimal_number(values.last() as nat);
        assert(signed_decimal(values.last() as int) == word);
        assert(line_of(values) == line_of(front) + tail);
        lemma_words_concat(line_of(front), tail);
        assert(words(tail) =~= seq![word]) by {
            assert(tail.skip(0) =~= tail);
            assert forall|j: int| 0 <= j < word.len() implies !is_space(#[trigger] tail[j]) by {
                assert(tail[j] == word[j]);
                assert(is_digit(word[j]));
            }
            lemma_word_at(tail, 0, word.len() as int);
            assert(tail.take(word.len() as int) =~= word);
            let last = tail.skip(word.len() as int);
            assert(last =~= seq![32u8]);
            assert(last.skip(1) =~= Seq::<u8>::empty());
            assert(words(last) == words(last.skip(1)));
            assert(words(last) =~= Seq::<Seq<u8>>::empty());
        }
        assert(values.map_values(form) =~= front.map_values(form).push(word));
        assert(words(line_of(values)) =~= values.map_values(form));
    }
}

/// What is written is read back: the text of a solution that names cities
/// by numbers from 0 on reads as those numbers.
pub proof fn lemma_solution_round_trip(values: Seq<isize>)
    requires
        forall|i: int| 0 <= i < values.len() ==> (#[trigger] values[i]) >= 0,
    ensures
        readable(line_of(values)),
        reads_as(line_of(values), values.map_values(|v: isize| v as usize)),
{
    lemma_words_of_line(values);
    let ws = words(line_of(values));
    assert forall|i: int| 0 <= i < ws.len() implies number(#[trigger] ws[i]) == Some(
        values[i] as nat,
    ) by {
        lemma_decimal_number(values[i] as nat);
    }
}

} // verus!
