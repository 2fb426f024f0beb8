use vstd::prelude::*;
use crate::chord::{ChordSpecView, Triad};
use crate::degree::{parse_degree, Degree, SpecDegreeParseError};
use crate::key::Mode;
use crate::notation::{
    body, chord_shape, degree_texts, numeral_index, numeral_mode, numeral_of, numeral_text,
    parse_chord, parse_degrees, section_at, triad_of_symbol, triad_symbol,
    shape_fits, upper, written_adj, ChordShape, Section, SpecChordParseError,
};
use crate::text::{
    accidental_marks, all_in_class, decimal, decimal_value, in_class, is_decimal,
    joined, lemma_accidental_marks, lemma_decimal_round_trip, lemma_span_end_is,
    net_accidentals, span_end, CharClass,
};

verus! {

/// A text is empty or starts with a character outside a class.
pub open spec fn starts_outside(text: Seq<char>, class: CharClass) -> bool {
    text.len() == 0 || !in_class(class, text[0])
}

/// A run of one class, set between two texts, is found as a whole where the
/// text after it starts outside the class.
pub proof fn lemma_span_of_run(before: Seq<char>, run: Seq<char>, after: Seq<char>, class: CharClass)
    requires
        all_in_class(run, class),
        starts_outside(after, class),
    ensures
        span_end(before + run + after, class, before.len() as int) == before.len() + run.len(),
{
    let s = before + run + after;
    let from = before.len() as int;
    let end = from + run.len();
    assert forall|i: int| from <= i < end implies in_class(class, #[trigger] s[i]) by {
        assert(s[i] == run[i - from]);
    }
    if end < s.len() {
        assert(s[end] == after[0]);
    }
    lemma_span_end_is(s, class, from, end);
}

/// The decimal writing of a number is made of characters that neither open a
/// section nor part a list, and starts with none of the accidentals.
pub proof fn lemma_decimal_plain(n: nat)
    ensures
        all_in_class(decimal(n), CharClass::Plain),
        all_in_class(decimal(n), CharClass::Item),
        decimal(n).len() >= 1,
        !in_class(CharClass::Accidental, decimal(n)[0]),
    decreases n,
{
    if n >= 10 {
        lemma_decimal_plain(n / 10);
    }
}

/// Reading a degree's notation gives the degree back.
pub proof fn lemma_degree_round_trip(degree: Degree)
    requires
        degree.wf(),
    ensures
        parse_degree(degree.text()) == Ok::<Degree, SpecDegreeParseError>(degree),
        all_in_class(degree.text(), CharClass::Plain),
        all_in_class(degree.text(), CharClass::Item),
        degree.text().len() >= 1,
{
    let marks = accidental_marks(degree.adj as int);
    let digits = decimal(degree.degree as nat);
    let text = degree.text();
    lemma_accidental_marks(degree.adj as int);
    lemma_decimal_round_trip(degree.degree as nat);
    lemma_decimal_plain(degree.degree as nat);
    lemma_span_of_run(Seq::empty(), marks, digits, CharClass::Accidental);
    assert(Seq::<char>::empty() + marks + digits =~= text);
    assert(text.subrange(0, marks.len() as int) =~= marks);
    assert(text.subrange(marks.len() as int, text.len() as int) =~= digits);
    assert forall|i: int| 0 <= i < text.len() implies in_class(CharClass::Plain, #[trigger] text[i])
        && in_class(CharClass::Item, text[i]) by {
        if i < marks.len() {
            assert(in_class(CharClass::Accidental, marks[i]));
        } else {
            assert(text[i] == digits[i - marks.len()]);
            assert(in_class(CharClass::Plain, digits[i - marks.len()]));
            assert(in_class(CharClass::Item, digits[i - marks.len()]));
        }
    }
}

/// A list of two texts or more is its first text, the separator, and the
/// rest joined.
pub proof fn lemma_joined_front(parts: Seq<Seq<char>>, separator: char)
    requires
        parts.len() >= 2,
    ensures
        joined(parts, separator) == parts[0] + seq![separator] + joined(
            parts.drop_first(),
            separator,
        ),
    decreases parts.len(),
{
    let rest = parts.drop_first();
    if parts.len() == 2 {
        assert(parts.drop_last() =~= seq![parts[0]]);
        assert(rest =~= seq![parts[1]]);
        assert(joined(parts.drop_last(), separator) == parts[0]);
        assert(joined(rest, separator) == parts[1]);
    } else {
        lemma_joined_front(parts.drop_last(), separator);
        assert(parts.drop_last().drop_first() =~= rest.drop_last());
        assert(rest.last() == parts.last());
        assert(parts.drop_last()[0] == parts[0]);
        assert(joined(parts, separator) =~= parts[0] + seq![separator] + joined(rest, separator));
    }
}

/// The joined notations of degrees hold no character that opens a section.
pub proof fn lemma_joined_plain(degrees: Seq<Degree>)
    requires
        forall|i: int| 0 <= i < degrees.len() ==> (#[trigger] degrees[i]).wf(),
    ensures
        all_in_class(joined(degree_texts(degrees), ','), CharClass::Plain),
    decreases degrees.len(),
{
    let texts = degree_texts(degrees);
    if degrees.len() == 1 {
        lemma_degree_round_trip(degrees[0]);
    } else if degrees.len() >= 2 {
        let front = degrees.drop_last();
        assert(texts.drop_last() =~= degree_texts(front));
        lemma_joined_plain(front);
        lemma_degree_round_trip(degrees.last());
        let whole = joined(texts, ',');
        let head = joined(texts.drop_last(), ',');
        assert forall|i: int| 0 <= i < whole.len() implies in_class(
            CharClass::Plain,
            #[trigger] whole[i],
        ) by {
            if i < head.len() {
                assert(whole[i] == head[i]);
            } else if i == head.len() {
                assert(whole[i] == ',');
            } else {
                assert(whole[i] == texts.last()[i - head.len() - 1]);
            }
        }
    }
}

/// Reading the joined notations of a list of degrees, wherever they stand
/// at the end of a text, gives the degrees back.
pub proof fn lemma_degrees_round_trip(before: Seq<char>, degrees: Seq<Degree>)
    requires
        degrees.len() >= 1,
        forall|i: int| 0 <= i < degrees.len() ==> (#[trigger] degrees[i]).wf(),
    ensures
        parse_degrees(before + joined(degree_texts(degrees), ','), before.len() as int) == Ok::<
            Seq<Degree>,
            SpecDegreeParseError,
        >(degrees),
    decreases degrees.len(),
{
    let texts = degree_texts(degrees);
    let first = degrees[0].text();
    let list = joined(texts, ',');
    let s = before + list;
    let from = before.len() as int;
    lemma_degree_round_trip(degrees[0]);
    assert(texts[0] == first);
    if degrees.len() == 1 {
        assert(list == first);
        lemma_span_of_run(before, first, Seq::empty(), CharClass::Item);
        assert(before + first + Seq::<char>::empty() =~= s);
        assert(s.subrange(from, from + first.len()) =~= first);
        assert(degrees =~= seq![degrees[0]]);
    } else {
        let rest = degrees.drop_first();
        let rest_list = joined(degree_texts(rest), ',');
        lemma_joined_front(texts, ',');
        assert(texts.drop_first() =~= degree_texts(rest));
        assert(list == first + seq![','] + rest_list);
        let after = seq![','] + rest_list;
        lemma_span_of_run(before, first, after, CharClass::Item);
        assert(before + first + after =~= s);
        assert(s.subrange(from, from + first.len()) =~= first);
        let grown = before + first + seq![','];
        lemma_degrees_round_trip(grown, rest);
        assert(grown + rest_list =~= s);
        assert(from + first.len() < s.len());
        assert(seq![degrees[0]] + rest =~= degrees);
    }
}

/// The place of an opening character in the order of a chord's sections;
/// 0 for any other character.
pub open spec fn opener_rank(c: char) -> int {
    if c == ':' {
        1
    } else if c == '/' {
        2
    } else if c == '%' {
        3
    } else if c == '>' || c == '<' {
        4
    } else if c == '~' {
        5
    } else {
        0
    }
}

/// A text is empty or starts with the opening character of a section at or
/// after a place in their order.
pub open spec fn opens_from(text: Seq<char>, rank: int) -> bool {
    text.len() == 0 || opener_rank(text[0]) >= rank
}

/// Two texts that open at or after a place do so when set one after the
/// other.
pub proof fn lemma_opens_from_concat(first: Seq<char>, second: Seq<char>, rank: int)
    requires
        opens_from(first, rank),
        opens_from(second, rank),
    ensures
        opens_from(first + second, rank),
{
    if first.len() > 0 {
        assert((first + second)[0] == first[0]);
    } else {
        assert(first + second =~= second);
    }
}

/// The notation of a section: its opening character and its content, or
/// nothing.
pub open spec fn section_text(opener: char, present: bool, content: Seq<char>) -> Seq<char> {
    if present {
        seq![opener] + content
    } else {
        Seq::empty()
    }
}

/// A section that is written is found with its content, and a section that
/// is not written is found absent, where what follows starts with another
/// opening character or is empty.
pub proof fn lemma_section(
    before: Seq<char>,
    opener: char,
    present: bool,
    content: Seq<char>,
    after: Seq<char>,
)
    requires
        all_in_class(content, CharClass::Plain),
        starts_outside(after, CharClass::Plain),
        !present ==> after.len() == 0 || after[0] != opener,
        (before + section_text(opener, present, content) + after).len() <= usize::MAX,
    ensures
        ({
            let s = before + section_text(opener, present, content) + after;
            let found = section_at(s, before.len() as int, opener);
            &&& found.present == present
            &&& found.from == before.len() + (if present {
                1int
            } else {
                0int
            })
            &&& found.to == before.len() + section_text(opener, present, content).len()
            &&& present ==> body(s, found) == content
        }),
{
    let text = section_text(opener, present, content);
    let s = before + text + after;
    let at = before.len() as int;
    if present {
        assert(s[at] == opener);
        let opened = before + seq![opener];
        assert(opened + content + after =~= s);
        lemma_span_of_run(opened, content, after, CharClass::Plain);
        assert(s.subrange(at + 1, at + 1 + content.len()) =~= content);
    } else {
        assert(s =~= before + after);
        if after.len() > 0 {
            assert(s[at] == after[0]);
        }
    }
}

/// The numerals are read back as their position and their case.
pub proof fn lemma_numeral_round_trip(degree: int, small: bool)
    requires
        1 <= degree <= 7,
    ensures
        numeral_index(numeral_of(degree, small)) == Some((degree - 1) as usize),
        numeral_mode(numeral_of(degree, small)) == Some(
            if small {
                Mode::Minor
            } else {
                Mode::Major
            },
        ),
        all_in_class(numeral_of(degree, small), CharClass::Numeral),
        all_in_class(numeral_of(degree, small), CharClass::Plain),
        numeral_of(degree, small).len() >= 1,
{
    let numeral = numeral_of(degree, small);
    let index = degree - 1;
    let raised = Seq::new(numeral.len(), |i: int| upper(numeral[i]));
    assert(raised =~= numeral_text(index));
    assert forall|k: int| 0 <= k < index implies raised != numeral_text(k) by {
        if raised.len() == numeral_text(k).len() {
            if raised[0] == numeral_text(k)[0] {
                if raised.len() >= 2 {
                    assert(raised[1] != numeral_text(k)[1]);
                }
            }
        }
    }
    if !small {
        assert(numeral[0] == 'I' || numeral[0] == 'V');
    }
}

/// A section that lies at `at`, present or not, with its content up to `to`.
pub open spec fn section_of(present: bool, at: int, to: int) -> Section {
    Section {
        present,
        from: (if present {
            at + 1
        } else {
            at
        }) as usize,
        to: to as usize,
    }
}

/// The parts that a chord's notation is written from.
pub struct Parts {
    pub numeral: Seq<char>,
    pub marks: Seq<char>,
    pub symbol: Seq<char>,
    pub extensions: Option<Seq<char>>,
    pub bass: Option<Seq<char>>,
    pub inversion: Option<Seq<char>>,
    pub shift_up: Option<Seq<char>>,
    pub shift_down: Option<Seq<char>>,
    pub rel_key: Option<Seq<char>>,
}

/// The notation of an optional section.
pub open spec fn optional_text(opener: char, content: Option<Seq<char>>) -> Seq<char> {
    section_text(
        opener,
        content is Some,
        match content {
            Some(text) => text,
            None => Seq::empty(),
        },
    )
}

/// The content of an optional section, or the empty text.
pub open spec fn content_of(content: Option<Seq<char>>) -> Seq<char> {
    match content {
        Some(text) => text,
        None => Seq::empty(),
    }
}

impl Parts {
    /// The head: numeral, accidentals and triad symbol.
    pub open spec fn head(self) -> Seq<char> {
        self.numeral + self.marks + self.symbol
    }

    /// The notation from the relative key on.
    pub open spec fn from_rel_key(self) -> Seq<char> {
        optional_text('~', self.rel_key)
    }

    /// The notation from the octave shift on.
    pub open spec fn from_shift(self) -> Seq<char> {
        optional_text('>', self.shift_up) + optional_text('<', self.shift_down)
            + self.from_rel_key()
    }

    /// The notation from the inversion on.
    pub open spec fn from_inversion(self) -> Seq<char> {
        optional_text('%', self.inversion) + self.from_shift()
    }

    /// The notation from the bass on.
    pub open spec fn from_bass(self) -> Seq<char> {
        optional_text('/', self.bass) + self.from_inversion()
    }

    /// The notation from the extensions on.
    pub open spec fn from_extensions(self) -> Seq<char> {
        optional_text(':', self.extensions) + self.from_bass()
    }

    /// The notation written from the parts.
    pub open spec fn text(self) -> Seq<char> {
        self.head() + self.from_extensions()
    }

    /// The parts can be told apart in the notation written from them: each
    /// is made of the characters of its kind, the numeral is not empty, the
    /// triad symbol starts with neither a numeral's letter nor an accidental,
    /// and the shift goes one way only.
    pub open spec fn distinct(self) -> bool {
        &&& self.numeral.len() >= 1
        &&& all_in_class(self.numeral, CharClass::Numeral)
        &&& all_in_class(self.marks, CharClass::Accidental)
        &&& all_in_class(self.symbol, CharClass::Plain)
        &&& starts_outside(self.symbol, CharClass::Numeral)
        &&& starts_outside(self.symbol, CharClass::Accidental)
        &&& all_in_class(content_of(self.extensions), CharClass::Plain)
        &&& all_in_class(content_of(self.bass), CharClass::Plain)
        &&& all_in_class(content_of(self.inversion), CharClass::Plain)
        &&& all_in_class(content_of(self.shift_up), CharClass::Plain)
        &&& all_in_class(content_of(self.shift_down), CharClass::Plain)
        &&& all_in_class(content_of(self.rel_key), CharClass::Plain)
        &&& !(self.shift_up is Some && self.shift_down is Some)
        &&& self.text().len() <= usize::MAX
    }
}

/// The notation of an optional section is empty or starts with its opening
/// character.
pub proof fn lemma_optional_opens(opener: char, content: Option<Seq<char>>)
    ensures
        optional_text(opener, content).len() == 0 || optional_text(opener, content)[0] == opener,
        content is None ==> optional_text(opener, content).len() == 0,
{
}

/// What follows each section opens a later section or is empty.
pub proof fn lemma_parts_tails(parts: Parts)
    ensures
        opens_from(parts.from_rel_key(), 5),
        opens_from(parts.from_shift(), 4),
        opens_from(parts.from_inversion(), 3),
        opens_from(parts.from_bass(), 2),
        opens_from(parts.from_extensions(), 1),
{
    lemma_optional_opens('~', parts.rel_key);
    lemma_optional_opens('<', parts.shift_down);
    lemma_optional_opens('>', parts.shift_up);
    lemma_optional_opens('%', parts.inversion);
    lemma_optional_opens('/', parts.bass);
    lemma_optional_opens(':', parts.extensions);
    let key = parts.from_rel_key();
    let down = optional_text('<', parts.shift_down);
    let up = optional_text('>', parts.shift_up);
    assert(opens_from(key, 4));
    lemma_opens_from_concat(down, key, 4);
    lemma_opens_from_concat(up, down + key, 4);
    assert(up + down + key =~= up + (down + key));
    assert(opens_from(parts.from_shift(), 3));
    lemma_opens_from_concat(optional_text('%', parts.inversion), parts.from_shift(), 3);
    assert(opens_from(parts.from_inversion(), 2));
    lemma_opens_from_concat(optional_text('/', parts.bass), parts.from_inversion(), 2);
    assert(opens_from(parts.from_bass(), 1));
    lemma_opens_from_concat(optional_text(':', parts.extensions), parts.from_bass(), 1);
}

/// The three parts of the head are found where they were written.
pub proof fn lemma_parts_head(parts: Parts)
    requires
        parts.distinct(),
    ensures
        ({
            let s = parts.text();
            let numeral_end = parts.numeral.len() as int;
            let marks_end = numeral_end + parts.marks.len();
            let head_end = parts.head().len() as int;
            &&& span_end(s, CharClass::Numeral, 0) == numeral_end
            &&& span_end(s, CharClass::Accidental, numeral_end) == marks_end
            &&& span_end(s, CharClass::Plain, marks_end) == head_end
            &&& s.subrange(0, numeral_end) == parts.numeral
            &&& s.subrange(numeral_end, marks_end) == parts.marks
            &&& s.subrange(marks_end, head_end) == parts.symbol
        }),
{
    let numeral = parts.numeral;
    let marks = parts.marks;
    let symbol = parts.symbol;
    let tail = parts.from_extensions();
    let s = parts.text();
    lemma_parts_tails(parts);
    assert(starts_outside(tail, CharClass::Numeral));
    assert(starts_outside(tail, CharClass::Accidental));
    assert(starts_outside(tail, CharClass::Plain));
    let after_marks = symbol + tail;
    assert(starts_outside(after_marks, CharClass::Accidental) && starts_outside(
        after_marks,
        CharClass::Numeral,
    )) by {
        if symbol.len() > 0 {
            assert(after_marks[0] == symbol[0]);
        } else {
            assert(after_marks =~= tail);
        }
    }
    let after_numeral = marks + after_marks;
    assert(starts_outside(after_numeral, CharClass::Numeral)) by {
        if marks.len() > 0 {
            assert(after_numeral[0] == marks[0]);
            assert(in_class(CharClass::Accidental, marks[0]));
        } else {
            assert(after_numeral =~= after_marks);
        }
    }
    lemma_span_of_run(Seq::empty(), numeral, after_numeral, CharClass::Numeral);
    assert(Seq::<char>::empty() + numeral + after_numeral =~= s);
    lemma_span_of_run(numeral, marks, after_marks, CharClass::Accidental);
    assert(numeral + marks + after_marks =~= s);
    lemma_span_of_run(numeral + marks, symbol, tail, CharClass::Plain);
    assert(numeral + marks + symbol + tail =~= s);
    assert(s.subrange(0, numeral.len() as int) =~= numeral);
    assert(s.subrange(numeral.len() as int, (numeral.len() + marks.len()) as int) =~= marks);
    assert(s.subrange((numeral.len() + marks.len()) as int, parts.head().len() as int)
        =~= symbol);
}

/// A section is found in a text that is what stands before it, the section's
/// notation, and what stands after it.
pub proof fn lemma_stage(
    s: Seq<char>,
    before: Seq<char>,
    opener: char,
    content: Option<Seq<char>>,
    after: Seq<char>,
)
    requires
        s == before + optional_text(opener, content) + after,
        all_in_class(content_of(content), CharClass::Plain),
        starts_outside(after, CharClass::Plain),
        content is None ==> after.len() == 0 || after[0] != opener,
        s.len() <= usize::MAX,
    ensures
        section_at(s, before.len() as int, opener) == section_of(
            content is Some,
            before.len() as int,
            (before.len() + optional_text(opener, content).len()) as int,
        ),
        content is Some ==> body(s, section_at(s, before.len() as int, opener)) == content_of(
            content,
        ),
{
    lemma_section(before, opener, content is Some, content_of(content), after);
}

impl Parts {
    /// Where the extensions are looked for: at the end of the head.
    pub open spec fn extensions_at(self) -> int {
        self.head().len() as int
    }

    /// Where the bass is looked for.
    pub open spec fn bass_at(self) -> int {
        self.extensions_at() + optional_text(':', self.extensions).len()
    }

    /// Where the inversion is looked for.
    pub open spec fn inversion_at(self) -> int {
        self.bass_at() + optional_text('/', self.bass).len()
    }

    /// Where a shift up is looked for.
    pub open spec fn shift_up_at(self) -> int {
        self.inversion_at() + optional_text('%', self.inversion).len()
    }

    /// Where a shift down is looked for.
    pub open spec fn shift_down_at(self) -> int {
        self.shift_up_at() + optional_text('>', self.shift_up).len()
    }

    /// Where the relative key is looked for.
    pub open spec fn rel_key_at(self) -> int {
        self.shift_down_at() + optional_text('<', self.shift_down).len()
    }

    /// The layout of the notation written from the parts.
    pub open spec fn shape(self) -> ChordShape {
        ChordShape {
            numeral_end: self.numeral.len() as usize,
            marks_end: (self.numeral.len() + self.marks.len()) as usize,
            head_end: self.head().len() as usize,
            extensions: section_of(self.extensions is Some, self.extensions_at(), self.bass_at()),
            bass: section_of(self.bass is Some, self.bass_at(), self.inversion_at()),
            inversion: section_of(self.inversion is Some, self.inversion_at(), self.shift_up_at()),
            shift_up: section_of(self.shift_up is Some, self.shift_up_at(), self.shift_down_at()),
            shift_down: section_of(
                self.shift_down is Some,
                self.shift_down_at(),
                self.rel_key_at(),
            ),
            rel_key: section_of(self.rel_key is Some, self.rel_key_at(), self.text().len() as int),
        }
    }
}

/// The places of the sections lie in their order within the notation.
pub proof fn lemma_parts_places(parts: Parts)
    ensures
        0 <= parts.extensions_at() <= parts.bass_at() <= parts.inversion_at(),
        parts.inversion_at() <= parts.shift_up_at() <= parts.shift_down_at(),
        parts.shift_down_at() <= parts.rel_key_at() <= parts.text().len(),
        parts.rel_key_at() + optional_text('~', parts.rel_key).len() == parts.text().len(),
{
}

/// The extensions are found where they were written.
pub proof fn lemma_parts_extensions(parts: Parts)
    requires
        parts.distinct(),
    ensures
        section_at(parts.text(), parts.extensions_at(), ':') == parts.shape().extensions,
        parts.extensions is Some ==> body(parts.text(), parts.shape().extensions) == content_of(
            parts.extensions,
        ),
{
    let s = parts.text();
    let head = parts.head();
    lemma_parts_tails(parts);
    lemma_regroup(head, optional_text(':', parts.extensions), parts.from_bass());
    lemma_stage(s, head, ':', parts.extensions, parts.from_bass());
}

/// The bass is found where it was written.
pub proof fn lemma_parts_bass(parts: Parts)
    requires
        parts.distinct(),
    ensures
        section_at(parts.text(), parts.bass_at(), '/') == parts.shape().bass,
        parts.bass is Some ==> body(parts.text(), parts.shape().bass) == content_of(parts.bass),
{
    let s = parts.text();
    let before = parts.head() + optional_text(':', parts.extensions);
    lemma_parts_tails(parts);
    lemma_regroup(parts.head(), optional_text(':', parts.extensions), parts.from_bass());
    lemma_regroup(before, optional_text('/', parts.bass), parts.from_inversion());
    lemma_stage(s, before, '/', parts.bass, parts.from_inversion());
}

/// The inversion is found where it was written.
pub proof fn lemma_parts_inversion(parts: Parts)
    requires
        parts.distinct(),
    ensures
        section_at(parts.text(), parts.inversion_at(), '%') == parts.shape().inversion,
        parts.inversion is Some ==> body(parts.text(), parts.shape().inversion) == content_of(
            parts.inversion,
        ),
{
    let s = parts.text();
    let listed = parts.head() + optional_text(':', parts.extensions);
    let before = listed + optional_text('/', parts.bass);
    lemma_parts_tails(parts);
    lemma_regroup(parts.head(), optional_text(':', parts.extensions), parts.from_bass());
    lemma_regroup(listed, optional_text('/', parts.bass), parts.from_inversion());
    lemma_regroup(before, optional_text('%', parts.inversion), parts.from_shift());
    lemma_stage(s, before, '%', parts.inversion, parts.from_shift());
}

impl Parts {
    /// The notation up to the octave shift.
    pub open spec fn up_to_shift(self) -> Seq<char> {
        self.head() + optional_text(':', self.extensions) + optional_text('/', self.bass)
            + optional_text('%', self.inversion)
    }
}

/// Setting texts one after another does not depend on how they are grouped.
pub proof fn lemma_regroup(first: Seq<char>, second: Seq<char>, third: Seq<char>)
    ensures
        first + (second + third) == first + second + third,
{
    assert(first + (second + third) =~= first + second + third);
}

/// The notation is what stands before the shift, the shift either way, and
/// the relative key.
pub proof fn lemma_parts_split_at_shift(parts: Parts)
    ensures
        parts.text() == parts.up_to_shift() + optional_text('>', parts.shift_up) + optional_text(
            '<',
            parts.shift_down,
        ) + parts.from_rel_key(),
        parts.text() == parts.up_to_shift() + parts.from_shift(),
        parts.up_to_shift().len() == parts.shift_up_at(),
{
    let head = parts.head();
    let extensions = optional_text(':', parts.extensions);
    let bass = optional_text('/', parts.bass);
    let inversion = optional_text('%', parts.inversion);
    let up = optional_text('>', parts.shift_up);
    let down = optional_text('<', parts.shift_down);
    let key = parts.from_rel_key();
    lemma_regroup(head, extensions, parts.from_bass());
    lemma_regroup(head + extensions, bass, parts.from_inversion());
    lemma_regroup(head + extensions + bass, inversion, parts.from_shift());
    let before = parts.up_to_shift();
    assert(parts.text() == before + parts.from_shift());
    lemma_regroup(before, up + down, key);
    lemma_regroup(before, up, down);
}

/// A shift up is found where it was written.
pub proof fn lemma_parts_shift_up(parts: Parts)
    requires
        parts.distinct(),
    ensures
        section_at(parts.text(), parts.shift_up_at(), '>') == parts.shape().shift_up,
        parts.shift_up is Some ==> body(parts.text(), parts.shape().shift_up) == content_of(
            parts.shift_up,
        ),
{
    let s = parts.text();
    let before = parts.up_to_shift();
    let up = optional_text('>', parts.shift_up);
    let down = optional_text('<', parts.shift_down);
    let key = parts.from_rel_key();
    lemma_parts_split_at_shift(parts);
    lemma_optional_opens('<', parts.shift_down);
    lemma_optional_opens('~', parts.rel_key);
    let after = down + key;
    assert(starts_outside(after, CharClass::Plain) && (after.len() == 0 || after[0] != '>')) by {
        if down.len() > 0 {
            assert(after[0] == down[0]);
        } else {
            assert(after =~= key);
        }
    }
    assert(before + up + after =~= before + up + down + key);
    lemma_stage(s, before, '>', parts.shift_up, after);
}

/// A shift down is found where it was written.
pub proof fn lemma_parts_shift_down(parts: Parts)
    requires
        parts.distinct(),
    ensures
        section_at(parts.text(), parts.shift_down_at(), '<') == parts.shape().shift_down,
        parts.shift_down is Some ==> body(parts.text(), parts.shape().shift_down) == content_of(
            parts.shift_down,
        ),
{
    let s = parts.text();
    let before = parts.up_to_shift() + optional_text('>', parts.shift_up);
    let key = parts.from_rel_key();
    lemma_parts_split_at_shift(parts);
    lemma_optional_opens('~', parts.rel_key);
    lemma_stage(s, before, '<', parts.shift_down, key);
}

/// The relative key is found where it was written.
pub proof fn lemma_parts_rel_key(parts: Parts)
    requires
        parts.distinct(),
    ensures
        section_at(parts.text(), parts.rel_key_at(), '~') == parts.shape().rel_key,
        parts.rel_key is Some ==> body(parts.text(), parts.shape().rel_key) == content_of(
            parts.rel_key,
        ),
{
    let s = parts.text();
    let before = parts.up_to_shift() + optional_text('>', parts.shift_up) + optional_text(
        '<',
        parts.shift_down,
    );
    lemma_parts_split_at_shift(parts);
    assert(before + parts.from_rel_key() + Seq::<char>::empty() =~= before
        + parts.from_rel_key());
    lemma_stage(s, before, '~', parts.rel_key, Seq::empty());
}

/// The notation written from distinct parts is laid out as it was written.
pub proof fn lemma_parts_shape(parts: Parts)
    requires
        parts.distinct(),
    ensures
        chord_shape(parts.text()) == parts.shape(),
{
    lemma_parts_head(parts);
    lemma_parts_places(parts);
    lemma_parts_extensions(parts);
    lemma_parts_bass(parts);
    lemma_parts_inversion(parts);
    lemma_parts_shift_up(parts);
    lemma_parts_shift_down(parts);
    lemma_parts_rel_key(parts);
}

impl Parts {
    /// The root's adjustment that the parts write.
    pub open spec fn adj(self) -> int {
        net_accidentals(self.marks) + (match self.shift_up {
            Some(count) => 12 * decimal_value(count),
            None => 0,
        }) - (match self.shift_down {
            Some(count) => 12 * decimal_value(count),
            None => 0,
        })
    }

    /// What the parts read as, each by itself, in the order in which a
    /// chord's parts are read.
    pub open spec fn read(self) -> Result<ChordSpecView, SpecChordParseError> {
        let extensions = match self.extensions {
            Some(list) => parse_degrees(list, 0),
            None => Ok(Seq::empty()),
        };
        let bass = parse_degree(content_of(self.bass));
        let key = content_of(self.rel_key);
        if numeral_mode(self.numeral) is None {
            Err(SpecChordParseError::InvalidNumeral(self.numeral))
        } else if (self.shift_up is Some && !is_decimal(content_of(self.shift_up))) || (
        self.shift_down is Some && !is_decimal(content_of(self.shift_down))) || self.adj()
            < isize::MIN || self.adj() > isize::MAX {
            Err(SpecChordParseError::ParseIntError)
        } else if triad_of_symbol(self.symbol) is None {
            Err(SpecChordParseError::InvalidTriadSymbol(self.symbol))
        } else if extensions is Err {
            Err(SpecChordParseError::InvalidExtension(extensions->Err_0))
        } else if numeral_index(self.numeral) is None {
            Err(SpecChordParseError::InvalidNumeral(self.numeral))
        } else if self.bass is Some && bass is Err {
            Err(SpecChordParseError::InvalidExtension(bass->Err_0))
        } else if self.rel_key is Some && (numeral_index(key) is None || numeral_mode(key)
            is None) {
            Err(SpecChordParseError::InvalidRelKey(key))
        } else if self.inversion is Some && (!is_decimal(content_of(self.inversion))
            || decimal_value(content_of(self.inversion)) > usize::MAX) {
            Err(SpecChordParseError::ParseIntError)
        } else {
            Ok(
                ChordSpecView {
                    root: Degree {
                        degree: (numeral_index(self.numeral)->Some_0 + 1) as usize,
                        adj: self.adj() as isize,
                    },
                    mode: numeral_mode(self.numeral)->Some_0,
                    triad: triad_of_symbol(self.symbol)->Some_0,
                    extensions: extensions->Ok_0,
                    bass_degree: if self.bass is Some {
                        Some(bass->Ok_0)
                    } else {
                        None
                    },
                    inversion: if self.inversion is Some {
                        decimal_value(content_of(self.inversion)) as usize
                    } else {
                        0
                    },
                    rel_key: if self.rel_key is Some {
                        Some(((numeral_index(key)->Some_0 + 1) as usize, numeral_mode(key)->Some_0))
                    } else {
                        None
                    },
                },
            )
        }
    }
}

/// The sections of the notation written from distinct parts hold what was
/// written in them.
pub proof fn lemma_parts_bodies(parts: Parts)
    requires
        parts.distinct(),
    ensures
        ({
            let s = parts.text();
            let shape = chord_shape(s);
            &&& shape == parts.shape()
            &&& shape.numeral_end > 0
            &&& shape.rel_key.to == s.len()
            &&& s.subrange(0, shape.numeral_end as int) == parts.numeral
            &&& s.subrange(shape.numeral_end as int, shape.marks_end as int) == parts.marks
            &&& s.subrange(shape.marks_end as int, shape.head_end as int) == parts.symbol
            &&& shape.extensions.present ==> body(s, shape.extensions) == content_of(
                parts.extensions,
            )
            &&& shape.bass.present ==> body(s, shape.bass) == content_of(parts.bass)
            &&& shape.inversion.present ==> body(s, shape.inversion) == content_of(parts.inversion)
            &&& shape.shift_up.present ==> body(s, shape.shift_up) == content_of(parts.shift_up)
            &&& shape.shift_down.present ==> body(s, shape.shift_down) == content_of(
                parts.shift_down,
            )
            &&& shape.rel_key.present ==> body(s, shape.rel_key) == content_of(parts.rel_key)
        }),
{
    lemma_parts_shape(parts);
    lemma_parts_head(parts);
    lemma_parts_places(parts);
    lemma_parts_extensions(parts);
    lemma_parts_bass(parts);
    lemma_parts_inversion(parts);
    lemma_parts_shift_up(parts);
    lemma_parts_shift_down(parts);
    lemma_parts_rel_key(parts);
}

/// The notation written from distinct parts reads as the parts do.
pub proof fn lemma_read_parts(parts: Parts)
    requires
        parts.distinct(),
    ensures
        parse_chord(parts.text()) == parts.read(),
{
    let s = parts.text();
    let shape = chord_shape(s);
    lemma_parts_bodies(parts);
    assert(written_adj(s) == parts.adj());
    assert(shape_fits(s));
    assert(body(s, shape.bass) == content_of(parts.bass)) by {
        if !shape.bass.present {
            assert(body(s, shape.bass) =~= Seq::<char>::empty());
        }
    }
    assert(body(s, shape.rel_key) == content_of(parts.rel_key)) by {
        if !shape.rel_key.present {
            assert(body(s, shape.rel_key) =~= Seq::<char>::empty());
        }
    }
}

/// A description that its notation tells apart from every other: it is well
/// formed, its root and its relative key are among the seven degrees of a
/// scale, its triad is not a diminished one on a major chord, and its
/// notation is no longer than a text can be.
pub open spec fn canonical(v: ChordSpecView) -> bool {
    &&& v.wf()
    &&& v.root.degree <= 7
    &&& v.rel_key is Some ==> v.rel_key->Some_0.0 <= 7
    &&& !(v.mode == Mode::Major && v.triad == Triad::Diminished)
    &&& v.text().len() <= usize::MAX
}

/// The parts that a description's notation is written from.
pub open spec fn parts_of(v: ChordSpecView) -> Parts {
    Parts {
        numeral: numeral_of(
            v.root.degree as int,
            v.mode == Mode::Minor || v.triad == Triad::Diminished,
        ),
        marks: accidental_marks(v.chromatic()),
        symbol: triad_symbol(v.triad),
        extensions: if v.extensions.len() > 0 {
            Some(joined(degree_texts(v.extensions), ','))
        } else {
            None
        },
        bass: match v.bass_degree {
            Some(bass) => Some(bass.text()),
            None => None,
        },
        inversion: if v.inversion > 0 {
            Some(decimal(v.inversion as nat))
        } else {
            None
        },
        shift_up: if v.octaves() != 0 && v.root.adj >= 0 {
            Some(decimal(v.octaves() as nat))
        } else {
            None
        },
        shift_down: if v.octaves() != 0 && v.root.adj < 0 {
            Some(decimal(v.octaves() as nat))
        } else {
            None
        },
        rel_key: match v.rel_key {
            Some((degree, mode)) => Some(numeral_of(degree as int, mode == Mode::Minor)),
            None => None,
        },
    }
}

/// A description's notation is the notation written from its parts.
pub proof fn lemma_text_of_parts(v: ChordSpecView)
    ensures
        parts_of(v).text() == v.text(),
{
    let parts = parts_of(v);
    assert(parts.head() == v.head_text());
    assert(optional_text(':', parts.extensions) == v.extensions_text());
    assert(optional_text('/', parts.bass) == v.bass_text());
    assert(optional_text('%', parts.inversion) == v.inversion_text());
    assert(optional_text('~', parts.rel_key) == v.rel_key_text());
    assert(optional_text('>', parts.shift_up) + optional_text('<', parts.shift_down)
        =~= v.shift_text());
    lemma_parts_split_at_shift(parts);
}

/// The parts of a canonical description can be told apart in its notation.
pub proof fn lemma_parts_distinct(v: ChordSpecView)
    requires
        canonical(v),
    ensures
        parts_of(v).distinct(),
{
    let parts = parts_of(v);
    lemma_text_of_parts(v);
    lemma_numeral_round_trip(
        v.root.degree as int,
        v.mode == Mode::Minor || v.triad == Triad::Diminished,
    );
    lemma_accidental_marks(v.chromatic());
    assert(all_in_class(content_of(parts.extensions), CharClass::Plain)) by {
        lemma_joined_plain(v.extensions);
    }
    assert(all_in_class(content_of(parts.bass), CharClass::Plain)) by {
        match v.bass_degree {
            Some(bass) => {
                lemma_degree_round_trip(bass);
            },
            None => {},
        }
    }
    assert(all_in_class(content_of(parts.inversion), CharClass::Plain)) by {
        lemma_decimal_plain(v.inversion as nat);
    }
    assert(all_in_class(content_of(parts.shift_up), CharClass::Plain) && all_in_class(
        content_of(parts.shift_down),
        CharClass::Plain,
    )) by {
        lemma_decimal_plain(v.octaves() as nat);
    }
    assert(all_in_class(content_of(parts.rel_key), CharClass::Plain)) by {
        match v.rel_key {
            Some((degree, mode)) => {
                lemma_numeral_round_trip(degree as int, mode == Mode::Minor);
            },
            None => {},
        }
    }
}

/// The parts of a canonical description read as the description.
pub proof fn lemma_parts_read(v: ChordSpecView)
    requires
        canonical(v),
    ensures
        parts_of(v).read() == Ok::<ChordSpecView, SpecChordParseError>(v),
{
    let parts = parts_of(v);
    let small = v.mode == Mode::Minor || v.triad == Triad::Diminished;
    lemma_numeral_round_trip(v.root.degree as int, small);
    lemma_accidental_marks(v.chromatic());
    lemma_decimal_round_trip(v.octaves() as nat);
    lemma_decimal_round_trip(v.inversion as nat);
    assert(parts.adj() == v.root.adj);
    assert(triad_of_symbol(parts.symbol) == Some(v.triad)) by {
        assert(seq!['-'][0] == '-' && seq!['+'][0] == '+' && seq!['_'][0] == '_' && seq![
            '^',
        ][0] == '^' && seq!['5'][0] == '5');
    }
    if v.extensions.len() > 0 {
        lemma_degrees_round_trip(Seq::empty(), v.extensions);
        assert(Seq::<char>::empty() + joined(degree_texts(v.extensions), ',') =~= joined(
            degree_texts(v.extensions),
            ',',
        ));
    }
    match v.bass_degree {
        Some(bass) => {
            lemma_degree_round_trip(bass);
        },
        None => {},
    }
    match v.rel_key {
        Some((degree, mode)) => {
            lemma_numeral_round_trip(degree as int, mode == Mode::Minor);
        },
        None => {},
    }
    let read = parts.read();
    assert(read is Ok);
    assert(read->Ok_0.extensions =~= v.extensions);
    assert(read->Ok_0.root == v.root);
    assert(read->Ok_0.rel_key == v.rel_key);
}

/// Reading the notation of a description gives the description back, for
/// every canonical description: `parse_chord` is a left inverse of `text`.
pub proof fn lemma_round_trip(v: ChordSpecView)
    requires
        canonical(v),
    ensures
        parse_chord(v.text()) == Ok::<ChordSpecView, SpecChordParseError>(v),
{
    lemma_text_of_parts(v);
    lemma_parts_distinct(v);
    lemma_read_parts(parts_of(v));
    lemma_parts_read(v);
}

} // verus!
