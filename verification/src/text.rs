use vstd::prelude::*;
use vstd::string::{StrSliceExecFns, StringExecFns};

verus! {

/// The character classes that the notations of this library are made of.
#[derive(Debug, Copy, Clone, PartialEq, Eq, Structural)]
pub enum CharClass {
    /// The letters of a roman numeral, in either case.
    Numeral,
    /// A flat or a sharp.
    Accidental,
    /// An ASCII decimal digit.
    Digit,
    /// An ASCII letter.
    Letter,
    /// Anything but a character that opens a section of a chord.
    Plain,
    /// Anything but the comma that parts the items of a list.
    Item,
    /// Anything but the space that parts the chords of a pattern.
    Word,
}

/// The characters that open the optional sections of a chord: extensions,
/// bass, inversion, octave shift up and down, relative key.
pub open spec fn is_opener(c: char) -> bool {
    c == ':' || c == '/' || c == '%' || c == '>' || c == '<' || c == '~'
}

/// Whether a character belongs to a class.
pub open spec fn in_class(class: CharClass, c: char) -> bool {
    match class {
        CharClass::Numeral => c == 'I' || c == 'V' || c == 'i' || c == 'v',
        CharClass::Accidental => c == 'b' || c == '#',
        CharClass::Digit => '0' <= c && c <= '9',
        CharClass::Letter => ('A' <= c && c <= 'Z') || ('a' <= c && c <= 'z'),
        CharClass::Plain => !is_opener(c),
        CharClass::Item => c != ',',
        CharClass::Word => c != ' ',
    }
}

/// Tells whether a character belongs to a class.
pub(crate) fn has_class(class: CharClass, c: char) -> (member: bool)
    ensures
        member == in_class(class, c),
{
    match class {
        CharClass::Numeral => c == 'I' || c == 'V' || c == 'i' || c == 'v',
        CharClass::Accidental => c == 'b' || c == '#',
        CharClass::Digit => '0' <= c && c <= '9',
        CharClass::Letter => ('A' <= c && c <= 'Z') || ('a' <= c && c <= 'z'),
        CharClass::Plain => !(c == ':' || c == '/' || c == '%' || c == '>' || c == '<' || c
            == '~'),
        CharClass::Item => c != ',',
        CharClass::Word => c != ' ',
    }
}

/// Whether every character of `s` belongs to `class`.
pub open spec fn all_in_class(s: Seq<char>, class: CharClass) -> bool {
    forall|i: int| 0 <= i < s.len() ==> in_class(class, #[trigger] s[i])
}

/// The end of the longest run of characters of `class` that starts at
/// position `from` of `s`.
pub open spec fn span_end(s: Seq<char>, class: CharClass, from: int) -> int
    decreases s.len() - from,
{
    if 0 <= from < s.len() && in_class(class, s[from]) {
        span_end(s, class, from + 1)
    } else {
        from
    }
}

/// A run ends within the text, holds only characters of its class, and stops
/// at the first character outside it.
pub proof fn lemma_span_end(s: Seq<char>, class: CharClass, from: int)
    requires
        0 <= from <= s.len(),
    ensures
        from <= span_end(s, class, from) <= s.len(),
        forall|i: int| from <= i < span_end(s, class, from) ==> in_class(class, #[trigger] s[i]),
        span_end(s, class, from) < s.len() ==> !in_class(class, s[span_end(s, class, from)]),
    decreases s.len() - from,
{
    if from < s.len() && in_class(class, s[from]) {
        lemma_span_end(s, class, from + 1);
    }
}

/// A position that the run's three properties hold of is the run's end.
pub proof fn lemma_span_end_is(s: Seq<char>, class: CharClass, from: int, end: int)
    requires
        0 <= from <= end <= s.len(),
        forall|i: int| from <= i < end ==> in_class(class, #[trigger] s[i]),
        end < s.len() ==> !in_class(class, s[end]),
    ensures
        span_end(s, class, from) == end,
    decreases end - from,
{
    if from < end {
        lemma_span_end_is(s, class, from + 1, end);
    }
}

/// Finds the end of the run of `class` that starts at `from`.
pub(crate) fn scan(s: &Vec<char>, class: CharClass, from: usize) -> (end: usize)
    requires
        from <= s.len(),
    ensures
        end == span_end(s@, class, from as int),
        from <= end <= s.len(),
{
    let mut end: usize = from;
    while end < s.len() && has_class(class, s[end])
        invariant
            from <= end <= s.len(),
            span_end(s@, class, from as int) == span_end(s@, class, end as int),
        decreases s.len() - end,
    {
        end += 1;
    }
    end
}

/// The characters of a string slice, one by one.
pub(crate) fn chars_of(s: &str) -> (chars: Vec<char>)
    ensures
        chars@ == s@,
{
    let n = s.unicode_len();
    let mut chars: Vec<char> = Vec::new();
    let mut i: usize = 0;
    while i < n
        invariant
            i <= n,
            n == s@.len(),
            chars@ == s@.take(i as int),
        decreases n - i,
    {
        chars.push(s.get_char(i));
        i += 1;
        assert(chars@ =~= s@.take(i as int));
    }
    assert(s@.take(n as int) =~= s@);
    chars
}

/// The part of `s` between two character positions, as an owned string.
pub(crate) fn slice_of(s: &str, from: usize, to: usize) -> (text: String)
    requires
        from <= to <= s@.len(),
    ensures
        text@ == s@.subrange(from as int, to as int),
{
    s.substring_char(from, to).to_owned()
}

/// The character that writes a digit `0..=9`.
pub open spec fn digit_char(d: int) -> char {
    if d == 0 {
        '0'
    } else if d == 1 {
        '1'
    } else if d == 2 {
        '2'
    } else if d == 3 {
        '3'
    } else if d == 4 {
        '4'
    } else if d == 5 {
        '5'
    } else if d == 6 {
        '6'
    } else if d == 7 {
        '7'
    } else if d == 8 {
        '8'
    } else {
        '9'
    }
}

/// The digit that a character of class `Digit` writes.
pub open spec fn digit_value(c: char) -> int {
    c as int - '0' as int
}

/// The decimal writing of a natural number, without leading zeros.
pub open spec fn decimal(n: nat) -> Seq<char>
    decreases n,
{
    if n < 10 {
        seq![digit_char(n as int)]
    } else {
        decimal(n / 10).push(digit_char((n % 10) as int))
    }
}

/// The number that a run of decimal digits writes; leading zeros count for
/// nothing.
pub open spec fn decimal_value(s: Seq<char>) -> nat
    decreases s.len(),
{
    if s.len() == 0 {
        0
    } else {
        (decimal_value(s.drop_last()) * 10 + digit_value(s.last())) as nat
    }
}

/// Text that a natural number can be read from: one decimal digit or more.
pub open spec fn is_decimal(s: Seq<char>) -> bool {
    s.len() >= 1 && all_in_class(s, CharClass::Digit)
}

/// Reading a number's decimal writing gives the number back.
pub proof fn lemma_decimal_round_trip(n: nat)
    ensures
        is_decimal(decimal(n)),
        decimal_value(decimal(n)) == n,
    decreases n,
{
    if n < 10 {
        let s = decimal(n);
        assert(s.drop_last() =~= Seq::<char>::empty());
        assert(decimal_value(s.drop_last()) == 0);
    } else {
        lemma_decimal_round_trip(n / 10);
        let s = decimal(n);
        assert(s.drop_last() =~= decimal(n / 10));
    }
}

/// A longer run of digits writes no smaller a number than its beginning.
pub proof fn lemma_decimal_value_prefix(s: Seq<char>, k: int)
    requires
        0 <= k <= s.len(),
        all_in_class(s, CharClass::Digit),
    ensures
        decimal_value(s.take(k)) <= decimal_value(s),
    decreases s.len() - k,
{
    if k < s.len() {
        lemma_decimal_value_prefix(s, k + 1);
        let t = s.take(k + 1);
        assert(t.drop_last() =~= s.take(k));
        assert(in_class(CharClass::Digit, s[k]));
        assert(t.last() == s[k]);
    } else {
        assert(s.take(k) =~= s);
    }
}

/// The literal that writes one decimal digit.
pub(crate) fn digit_str(d: usize) -> (text: &'static str)
    requires
        d < 10,
    ensures
        text@ == seq![digit_char(d as int)],
{
    proof {
        reveal_strlit("0");
        reveal_strlit("1");
        reveal_strlit("2");
        reveal_strlit("3");
        reveal_strlit("4");
        reveal_strlit("5");
        reveal_strlit("6");
        reveal_strlit("7");
        reveal_strlit("8");
        reveal_strlit("9");
    }
    let text = if d == 0 {
        "0"
    } else if d == 1 {
        "1"
    } else if d == 2 {
        "2"
    } else if d == 3 {
        "3"
    } else if d == 4 {
        "4"
    } else if d == 5 {
        "5"
    } else if d == 6 {
        "6"
    } else if d == 7 {
        "7"
    } else if d == 8 {
        "8"
    } else {
        "9"
    };
    assert(text@ =~= seq![digit_char(d as int)]);
    text
}

/// Appends the decimal writing of `n` to `out`.
pub(crate) fn push_decimal(out: &mut String, n: usize)
    ensures
        final(out)@ == old(out)@ + decimal(n as nat),
    decreases n,
{
    if n < 10 {
        out.append(digit_str(n));
    } else {
        push_decimal(out, n / 10);
        out.append(digit_str(n % 10));
        assert(out@ =~= old(out)@ + decimal(n as nat));
    }
}

/// Appends `count` copies of a one-character literal to `out`.
pub(crate) fn push_repeated(out: &mut String, unit: &str, count: usize)
    requires
        unit@.len() == 1,
    ensures
        final(out)@ == old(out)@ + Seq::new(count as nat, |i: int| unit@[0]),
{
    let mut done: usize = 0;
    while done < count
        invariant
            done <= count,
            unit@.len() == 1,
            out@ == old(out)@ + Seq::new(done as nat, |i: int| unit@[0]),
        decreases count - done,
    {
        out.append(unit);
        done += 1;
        assert(out@ =~= old(out)@ + Seq::new(done as nat, |i: int| unit@[0]));
    }
}

/// Tells whether `s[from..to]` is one decimal digit or more.
pub(crate) fn is_decimal_in(s: &Vec<char>, from: usize, to: usize) -> (decimal: bool)
    requires
        from <= to <= s.len(),
    ensures
        decimal == is_decimal(s@.subrange(from as int, to as int)),
{
    let end = scan(s, CharClass::Digit, from);
    let ghost digits = s@.subrange(from as int, to as int);
    proof {
        lemma_span_end(s@, CharClass::Digit, from as int);
        if end >= to {
            assert(forall|i: int| 0 <= i < digits.len() ==> digits[i] == s@[from + i]);
        } else {
            assert(digits[end - from] == s@[end as int]);
        }
    }
    end >= to && to > from
}

/// Reads the number written by the decimal digits in `s[from..to]`, unless it
/// exceeds `usize`.
pub(crate) fn read_decimal(s: &Vec<char>, from: usize, to: usize) -> (value: Option<usize>)
    requires
        from <= to <= s.len(),
        all_in_class(s@.subrange(from as int, to as int), CharClass::Digit),
    ensures
        value == (if decimal_value(s@.subrange(from as int, to as int)) <= usize::MAX {
            Some(decimal_value(s@.subrange(from as int, to as int)) as usize)
        } else {
            None
        }),
{
    let ghost digits = s@.subrange(from as int, to as int);
    let mut value: usize = 0;
    let mut i: usize = from;
    assert(digits.take(0) =~= Seq::<char>::empty());
    while i < to
        invariant
            from <= i <= to <= s.len(),
            digits == s@.subrange(from as int, to as int),
            all_in_class(digits, CharClass::Digit),
            value == decimal_value(digits.take(i - from)),
        decreases to - i,
    {
        let c = s[i];
        assert(c == digits[i - from]);
        assert(in_class(CharClass::Digit, digits[i - from]));
        let d: usize = (c as u32 - '0' as u32) as usize;
        proof {
            let t = digits.take(i - from + 1);
            assert(t.drop_last() =~= digits.take(i - from));
            assert(t.last() == c);
            lemma_decimal_value_prefix(digits, i - from + 1);
        }
        if value > (usize::MAX - d) / 10 {
            assert(decimal_value(digits.take(i - from + 1)) > usize::MAX);
            return None;
        }
        value = value * 10 + d;
        i += 1;
    }
    assert(digits.take(to - from) =~= digits);
    Some(value)
}

/// The net chromatic shift that a run of accidentals writes: one semitone up
/// for each sharp, one down for each flat.
pub open spec fn net_accidentals(s: Seq<char>) -> int
    decreases s.len(),
{
    if s.len() == 0 {
        0
    } else {
        net_accidentals(s.drop_last()) + (if s.last() == '#' {
            1int
        } else if s.last() == 'b' {
            -1int
        } else {
            0int
        })
    }
}

/// The accidentals that write a chromatic shift: flats for a negative one,
/// sharps for a positive one.
pub open spec fn accidental_marks(adj: int) -> Seq<char> {
    if adj < 0 {
        Seq::new((-adj) as nat, |i: int| 'b')
    } else {
        Seq::new(adj as nat, |i: int| '#')
    }
}

/// The marks written for a shift are accidentals and read back as that shift.
pub proof fn lemma_accidental_marks(adj: int)
    ensures
        all_in_class(accidental_marks(adj), CharClass::Accidental),
        net_accidentals(accidental_marks(adj)) == adj,
        accidental_marks(adj).len() == (if adj < 0 {
            -adj
        } else {
            adj
        }),
    decreases (if adj < 0 {
        -adj
    } else {
        adj
    }),
{
    if adj < 0 {
        lemma_accidental_marks(adj + 1);
        assert(accidental_marks(adj).drop_last() =~= accidental_marks(adj + 1));
    } else if adj > 0 {
        lemma_accidental_marks(adj - 1);
        assert(accidental_marks(adj).drop_last() =~= accidental_marks(adj - 1));
    }
}

/// The net shift of a run of accidentals lies within its length.
pub proof fn lemma_net_accidentals_bound(s: Seq<char>)
    ensures
        -s.len() <= net_accidentals(s) <= s.len(),
    decreases s.len(),
{
    if s.len() > 0 {
        lemma_net_accidentals_bound(s.drop_last());
    }
}

/// Sums the accidentals in `s[from..to]`.
pub(crate) fn read_accidentals(s: &Vec<char>, from: usize, to: usize) -> (net: i128)
    requires
        from <= to <= s.len(),
    ensures
        net == net_accidentals(s@.subrange(from as int, to as int)),
        -(to - from) <= net <= to - from,
{
    let ghost run = s@.subrange(from as int, to as int);
    let mut net: i128 = 0;
    let mut i: usize = from;
    assert(run.take(0) =~= Seq::<char>::empty());
    while i < to
        invariant
            from <= i <= to <= s.len(),
            run == s@.subrange(from as int, to as int),
            net == net_accidentals(run.take(i - from)),
            -(i - from) <= net <= i - from,
        decreases to - i,
    {
        let c = s[i];
        proof {
            let t = run.take(i - from + 1);
            assert(t.drop_last() =~= run.take(i - from));
            assert(t.last() == c);
        }
        if c == '#' {
            net = net + 1;
        } else if c == 'b' {
            net = net - 1;
        }
        i += 1;
    }
    assert(run.take(to - from) =~= run);
    net
}

/// Appends the accidentals that write `adj`.
pub(crate) fn push_accidentals(out: &mut String, adj: isize)
    ensures
        final(out)@ == old(out)@ + accidental_marks(adj as int),
{
    proof {
        reveal_strlit("b");
        reveal_strlit("#");
    }
    if adj < 0 {
        let count: usize = (-(adj as i128)) as usize;
        push_repeated(out, "b", count);
        assert(Seq::new(count as nat, |i: int| "b"@[0]) =~= accidental_marks(adj as int));
    } else {
        let count: usize = adj as usize;
        push_repeated(out, "#", count);
        assert(Seq::new(count as nat, |i: int| "#"@[0]) =~= accidental_marks(adj as int));
    }
}

/// The decimal writing of an integer, with a minus sign before a negative
/// one.
pub open spec fn signed_decimal(i: int) -> Seq<char> {
    if i < 0 {
        seq!['-'] + decimal((-i) as nat)
    } else {
        decimal(i as nat)
    }
}

/// Appends the decimal writing of `i`.
pub(crate) fn push_signed_decimal(out: &mut String, i: isize)
    ensures
        final(out)@ == old(out)@ + signed_decimal(i as int),
{
    if i < 0 {
        proof {
            reveal_strlit("-");
        }
        out.append("-");
        assert(out@ =~= old(out)@ + seq!['-']);
        push_decimal(out, (-(i as i128)) as usize);
        assert(out@ =~= old(out)@ + signed_decimal(i as int));
    } else {
        push_decimal(out, i as usize);
    }
}

/// The texts of a list set one after another, with a separator between each
/// two.
pub open spec fn joined(parts: Seq<Seq<char>>, separator: char) -> Seq<char>
    decreases parts.len(),
{
    if parts.len() == 0 {
        Seq::empty()
    } else if parts.len() == 1 {
        parts[0]
    } else {
        joined(parts.drop_last(), separator) + seq![separator] + parts.last()
    }
}

} // verus!
