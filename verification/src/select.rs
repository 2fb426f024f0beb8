use vstd::prelude::*;
use vstd::string::StringExecFns;
use crate::chord::{ChordSpec, ChordSpecView, Triad};
use crate::degree::Degree;
use crate::key::Mode;
use crate::notation::{
    degree_texts, numeral_of, numeral_str, parse_chord, triad_symbol, SpecChordParseError,
};
use crate::round_trip::{canonical, lemma_round_trip};
use crate::text::{accidental_marks, joined};
use crate::voicing::views;

verus! {

/// A list of choices with one of them selected.
#[derive(Debug, Clone, PartialEq, Eq)]
pub struct Select {
    pub idx: usize,
    pub choices: Vec<String>,
}

impl Select {
    /// Selects the choice after the selected one; after the last comes the
    /// first.
    pub fn next(&mut self)
        ensures
            final(self).choices == old(self).choices,
            final(self).idx == (if old(self).idx + 1 < old(self).choices@.len() {
                old(self).idx + 1
            } else {
                0
            }),
    {
        let count = self.choices.len();
        if self.idx < count && self.idx + 1 < count {
            self.idx = self.idx + 1;
        } else {
            self.idx = 0;
        }
    }

    /// Selects the choice before the selected one; before the first comes
    /// the last.
    pub fn prev(&mut self)
        ensures
            final(self).choices == old(self).choices,
            final(self).idx == (if old(self).idx > 0 {
                old(self).idx - 1
            } else if old(self).choices@.len() > 0 {
                old(self).choices@.len() - 1
            } else {
                0
            }),
    {
        if self.idx > 0 {
            self.idx -= 1;
        } else if self.choices.len() > 0 {
            self.idx = self.choices.len() - 1;
        }
    }

    /// The selected choice, if the selection lies in the list.
    pub fn selected(&self) -> (choice: Option<&String>)
        ensures
            choice == (if self.idx < self.choices@.len() {
                Some(&self.choices@[self.idx as int])
            } else {
                None
            }),
    {
        if self.idx < self.choices.len() {
            Some(&self.choices[self.idx])
        } else {
            None
        }
    }

    /// Finds the first choice with the given text.
    pub fn position(&self, text: &String) -> (found: Option<usize>)
        ensures
            match found {
                Some(at) => at < self.choices@.len() && self.choices@[at as int]@ == text@
                    && forall|i: int| 0 <= i < at ==> (#[trigger] self.choices@[i])@ != text@,
                None => forall|i: int|
                    0 <= i < self.choices@.len() ==> (#[trigger] self.choices@[i])@ != text@,
            },
    {
        let mut at: usize = 0;
        while at < self.choices.len()
            invariant
                at <= self.choices.len(),
                forall|i: int| 0 <= i < at ==> (#[trigger] self.choices@[i])@ != text@,
            decreases self.choices.len() - at,
        {
            if self.choices[at] == *text {
                return Some(at);
            }
            at += 1;
        }
        None
    }
}

/// A line of text that is being typed in, with the label shown before it.
#[derive(Debug, Clone, PartialEq, Eq)]
pub struct TextInput {
    pub input: String,
    pub label: String,
}

impl TextInput {
    /// An empty line with a label.
    pub fn new(label: &str) -> (line: TextInput)
        ensures
            line.label@ == label@,
            line.input@ == Seq::<char>::empty(),
    {
        TextInput { label: String::from_str(label), input: String::new() }
    }

    /// Replaces the text of the line.
    pub fn set_input(&mut self, input: String)
        ensures
            final(self).input == input,
            final(self).label == old(self).label,
    {
        self.input = input;
    }
}

/// The number of kinds of chord that are offered on each root: sixteen on
/// the major numeral, then nine on the minor.
pub const CHORD_KINDS: usize = 25;

/// The notation, after the numeral, of each kind of chord that is offered.
pub open spec fn chord_kind(kind: int) -> Seq<char> {
    if kind == 0 {
        ""@
    } else if kind == 1 {
        ":6"@
    } else if kind == 2 {
        ":6,9"@
    } else if kind == 3 {
        ":7"@
    } else if kind == 4 {
        ":7,9"@
    } else if kind == 5 {
        ":b7"@
    } else if kind == 6 {
        ":b7,9"@
    } else if kind == 7 {
        ":b9"@
    } else if kind == 8 {
        ":9"@
    } else if kind == 9 {
        "+"@
    } else if kind == 10 {
        "+:b7"@
    } else if kind == 11 {
        "+:9"@
    } else if kind == 12 {
        "_"@
    } else if kind == 13 {
        "^"@
    } else if kind == 14 {
        "^:b7,9"@
    } else if kind == 15 {
        "5"@
    } else if kind == 16 {
        ""@
    } else if kind == 17 {
        ":#6"@
    } else if kind == 18 {
        ":7"@
    } else if kind == 19 {
        ":7,#9"@
    } else if kind == 20 {
        ":#7"@
    } else if kind == 21 {
        ":#7,#9"@
    } else if kind == 22 {
        "-"@
    } else if kind == 23 {
        "-:b7"@
    } else {
        "-:7"@
    }
}

fn chord_kind_str(kind: usize) -> (text: &'static str)
    requires
        kind < CHORD_KINDS,
    ensures
        text@ == chord_kind(kind as int),
{
    if kind == 0 {
        ""
    } else if kind == 1 {
        ":6"
    } else if kind == 2 {
        ":6,9"
    } else if kind == 3 {
        ":7"
    } else if kind == 4 {
        ":7,9"
    } else if kind == 5 {
        ":b7"
    } else if kind == 6 {
        ":b7,9"
    } else if kind == 7 {
        ":b9"
    } else if kind == 8 {
        ":9"
    } else if kind == 9 {
        "+"
    } else if kind == 10 {
        "+:b7"
    } else if kind == 11 {
        "+:9"
    } else if kind == 12 {
        "_"
    } else if kind == 13 {
        "^"
    } else if kind == 14 {
        "^:b7,9"
    } else if kind == 15 {
        "5"
    } else if kind == 16 {
        ""
    } else if kind == 17 {
        ":#6"
    } else if kind == 18 {
        ":7"
    } else if kind == 19 {
        ":7,#9"
    } else if kind == 20 {
        ":#7"
    } else if kind == 21 {
        ":#7,#9"
    } else if kind == 22 {
        "-"
    } else if kind == 23 {
        "-:b7"
    } else {
        "-:7"
    }
}

/// The notation of a kind of chord on a root, counted from 0: the root's
/// numeral, in upper case for the first sixteen kinds and in lower case for
/// the others, and the kind's notation.
pub open spec fn chord_option(root: int, kind: int) -> Seq<char> {
    numeral_of(root % 7 + 1, kind >= 16) + chord_kind(kind)
}

/// The notations of the chords that are offered on a root, counted from 0.
pub fn chord_options(root: usize) -> (options: Vec<String>)
    ensures
        options@.len() == CHORD_KINDS,
        forall|kind: int|
            0 <= kind < CHORD_KINDS ==> (#[trigger] options@[kind])@ == chord_option(
                root as int,
                kind,
            ),
{
    let degree = root % 7 + 1;
    let mut options: Vec<String> = Vec::new();
    let mut kind: usize = 0;
    while kind < CHORD_KINDS
        invariant
            kind <= CHORD_KINDS,
            degree == root % 7 + 1,
            options@.len() == kind,
            forall|k: int|
                0 <= k < kind ==> (#[trigger] options@[k])@ == chord_option(root as int, k),
        decreases CHORD_KINDS - kind,
    {
        let mut option = String::from_str(numeral_str(degree, kind >= 16));
        option.append(chord_kind_str(kind));
        assert(numeral_of(degree as int, kind >= 16) == numeral_of(root % 7 + 1, kind >= 16));
        options.push(option);
        kind += 1;
    }
    options
}

/// The description of each kind of chord that is offered, on a root counted
/// from 0: its triad and its extensions, on the major chord for the first
/// sixteen kinds and on the minor chord for the others.
pub open spec fn offered(root: int, kind: int) -> ChordSpecView {
    ChordSpecView {
        root: Degree { degree: (root % 7 + 1) as usize, adj: 0 },
        mode: if kind >= 16 {
            Mode::Minor
        } else {
            Mode::Major
        },
        triad: offered_triad(kind),
        extensions: offered_extensions(kind),
        bass_degree: None,
        inversion: 0,
        rel_key: None,
    }
}

/// The triad of each kind of chord that is offered.
pub open spec fn offered_triad(kind: int) -> Triad {
    if 9 <= kind <= 11 {
        Triad::Augmented
    } else if kind == 12 {
        Triad::Sus2
    } else if kind == 13 || kind == 14 {
        Triad::Sus4
    } else if kind == 15 {
        Triad::Power
    } else if kind >= 22 {
        Triad::Diminished
    } else {
        Triad::Mode
    }
}

/// The extensions of each kind of chord that is offered.
pub open spec fn offered_extensions(kind: int) -> Seq<Degree> {
    if kind == 1 {
        seq![Degree { degree: 6, adj: 0isize }]
    }     else if kind == 2 {
        seq![Degree { degree: 6, adj: 0isize }, Degree { degree: 9, adj: 0isize }]
    }     else if kind == 3 {
        seq![Degree { degree: 7, adj: 0isize }]
    }     else if kind == 4 {
        seq![Degree { degree: 7, adj: 0isize }, Degree { degree: 9, adj: 0isize }]
    }     else if kind == 5 {
        seq![Degree { degree: 7, adj: -1isize }]
    }     else if kind == 6 {
        seq![Degree { degree: 7, adj: -1isize }, Degree { degree: 9, adj: 0isize }]
    }     else if kind == 7 {
        seq![Degree { degree: 9, adj: -1isize }]
    }     else if kind == 8 {
        seq![Degree { degree: 9, adj: 0isize }]
    }     else if kind == 10 {
        seq![Degree { degree: 7, adj: -1isize }]
    }     else if kind == 11 {
        seq![Degree { degree: 9, adj: 0isize }]
    }     else if kind == 14 {
        seq![Degree { degree: 7, adj: -1isize }, Degree { degree: 9, adj: 0isize }]
    }     else if kind == 17 {
        seq![Degree { degree: 6, adj: 1isize }]
    }     else if kind == 18 {
        seq![Degree { degree: 7, adj: 0isize }]
    }     else if kind == 19 {
        seq![Degree { degree: 7, adj: 0isize }, Degree { degree: 9, adj: 1isize }]
    }     else if kind == 20 {
        seq![Degree { degree: 7, adj: 1isize }]
    }     else if kind == 21 {
        seq![Degree { degree: 7, adj: 1isize }, Degree { degree: 9, adj: 1isize }]
    }     else if kind == 23 {
        seq![Degree { degree: 7, adj: -1isize }]
    }     else if kind == 24 {
        seq![Degree { degree: 7, adj: 0isize }]
    } else {
        Seq::empty()
    }
}

/// The notation of a chord without accidentals on its root, bass, inversion
/// or relative key is its numeral, its triad symbol and its extensions.
pub proof fn lemma_offered_text(root: int, kind: int)
    requires
        0 <= root,
        0 <= kind < CHORD_KINDS,
    ensures
        offered(root, kind).text() == numeral_of(root % 7 + 1, kind >= 16) + (triad_symbol(
            offered_triad(kind),
        ) + offered(root, kind).extensions_text()),
{
    let v = offered(root, kind);
    assert(accidental_marks(v.chromatic()) =~= Seq::<char>::empty());
    assert(v.text() =~= numeral_of(root % 7 + 1, kind >= 16) + (triad_symbol(offered_triad(kind))
        + v.extensions_text()));
}

/// The notation of one extension, or of two.
pub proof fn lemma_listed(first: Degree, second: Degree)
    ensures
        joined(degree_texts(seq![first]), ',') == first.text(),
        joined(degree_texts(seq![first, second]), ',') == first.text() + seq![','] + second.text(),
{
    let one = degree_texts(seq![first]);
    assert(one[0] == first.text());
    let two = degree_texts(seq![first, second]);
    assert(two.drop_last() =~= one);
    assert(two.last() == second.text());
}

/// The notations of the degrees that are offered as extensions.
pub proof fn lemma_offered_degrees()
    ensures
        (Degree { degree: 6, adj: 0 }).text() == seq!['6'],
        (Degree { degree: 6, adj: 1 }).text() == seq!['#', '6'],
        (Degree { degree: 7, adj: 0 }).text() == seq!['7'],
        (Degree { degree: 7, adj: -1isize }).text() == seq!['b', '7'],
        (Degree { degree: 7, adj: 1 }).text() == seq!['#', '7'],
        (Degree { degree: 9, adj: 0 }).text() == seq!['9'],
        (Degree { degree: 9, adj: -1isize }).text() == seq!['b', '9'],
        (Degree { degree: 9, adj: 1 }).text() == seq!['#', '9'],
{
    assert(accidental_marks(0) =~= Seq::<char>::empty());
    assert(accidental_marks(1) =~= seq!['#']);
    assert(accidental_marks(-1) =~= seq!['b']);
    assert((Degree { degree: 6, adj: 0 }).text() =~= seq!['6']);
    assert((Degree { degree: 6, adj: 1 }).text() =~= seq!['#', '6']);
    assert((Degree { degree: 7, adj: 0 }).text() =~= seq!['7']);
    assert((Degree { degree: 7, adj: -1isize }).text() =~= seq!['b', '7']);
    assert((Degree { degree: 7, adj: 1 }).text() =~= seq!['#', '7']);
    assert((Degree { degree: 9, adj: 0 }).text() =~= seq!['9']);
    assert((Degree { degree: 9, adj: -1isize }).text() =~= seq!['b', '9']);
    assert((Degree { degree: 9, adj: 1 }).text() =~= seq!['#', '9']);
}

/// The notation after the numeral of each kind of chord that is offered is
/// that of its triad and extensions.
pub proof fn lemma_chord_kind(root: int, kind: int)
    requires
        0 <= root,
        0 <= kind < CHORD_KINDS,
    ensures
        chord_kind(kind) == triad_symbol(offered_triad(kind)) + offered(
            root,
            kind,
        ).extensions_text(),
        chord_kind(kind).len() <= 6,
{
    let v = offered(root, kind);
    let written = triad_symbol(offered_triad(kind)) + v.extensions_text();
    lemma_offered_degrees();
    if kind == 0 {
        reveal_strlit("");
        assert(written =~= ""@);
    }
    if kind == 1 {
        reveal_strlit(":6");
        lemma_listed(Degree { degree: 6, adj: 0isize }, Degree { degree: 6, adj: 0isize });
        assert(written =~= ":6"@);
    }
    if kind == 2 {
        reveal_strlit(":6,9");
        lemma_listed(Degree { degree: 6, adj: 0isize }, Degree { degree: 9, adj: 0isize });
        assert(written =~= ":6,9"@);
    }
    if kind == 3 {
        reveal_strlit(":7");
        lemma_listed(Degree { degree: 7, adj: 0isize }, Degree { degree: 7, adj: 0isize });
        assert(written =~= ":7"@);
    }
    if kind == 4 {
        reveal_strlit(":7,9");
        lemma_listed(Degree { degree: 7, adj: 0isize }, Degree { degree: 9, adj: 0isize });
        assert(written =~= ":7,9"@);
    }
    if kind == 5 {
        reveal_strlit(":b7");
        lemma_listed(Degree { degree: 7, adj: -1isize }, Degree { degree: 7, adj: -1isize });
        assert(written =~= ":b7"@);
    }
    if kind == 6 {
        reveal_strlit(":b7,9");
        lemma_listed(Degree { degree: 7, adj: -1isize }, Degree { degree: 9, adj: 0isize });
        assert(written =~= ":b7,9"@);
    }
    if kind == 7 {
        reveal_strlit(":b9");
        lemma_listed(Degree { degree: 9, adj: -1isize }, Degree { degree: 9, adj: -1isize });
        assert(written =~= ":b9"@);
    }
    if kind == 8 {
        reveal_strlit(":9");
        lemma_listed(Degree { degree: 9, adj: 0isize }, Degree { degree: 9, adj: 0isize });
        assert(written =~= ":9"@);
    }
    if kind == 9 {
        reveal_strlit("+");
        assert(written =~= "+"@);
    }
    if kind == 10 {
        reveal_strlit("+:b7");
        lemma_listed(Degree { degree: 7, adj: -1isize }, Degree { degree: 7, adj: -1isize });
        assert(written =~= "+:b7"@);
    }
    if kind == 11 {
        reveal_strlit("+:9");
        lemma_listed(Degree { degree: 9, adj: 0isize }, Degree { degree: 9, adj: 0isize });
        assert(written =~= "+:9"@);
    }
    if kind == 12 {
        reveal_strlit("_");
        assert(written =~= "_"@);
    }
    if kind == 13 {
        reveal_strlit("^");
        assert(written =~= "^"@);
    }
    if kind == 14 {
        reveal_strlit("^:b7,9");
        lemma_listed(Degree { degree: 7, adj: -1isize }, Degree { degree: 9, adj: 0isize });
        assert(written =~= "^:b7,9"@);
    }
    if kind == 15 {
        reveal_strlit("5");
        assert(written =~= "5"@);
    }
    if kind == 16 {
        reveal_strlit("");
        assert(written =~= ""@);
    }
    if kind == 17 {
        reveal_strlit(":#6");
        lemma_listed(Degree { degree: 6, adj: 1isize }, Degree { degree: 6, adj: 1isize });
        assert(written =~= ":#6"@);
    }
    if kind == 18 {
        reveal_strlit(":7");
        lemma_listed(Degree { degree: 7, adj: 0isize }, Degree { degree: 7, adj: 0isize });
        assert(written =~= ":7"@);
    }
    if kind == 19 {
        reveal_strlit(":7,#9");
        lemma_listed(Degree { degree: 7, adj: 0isize }, Degree { degree: 9, adj: 1isize });
        assert(written =~= ":7,#9"@);
    }
    if kind == 20 {
        reveal_strlit(":#7");
        lemma_listed(Degree { degree: 7, adj: 1isize }, Degree { degree: 7, adj: 1isize });
        assert(written =~= ":#7"@);
    }
    if kind == 21 {
        reveal_strlit(":#7,#9");
        lemma_listed(Degree { degree: 7, adj: 1isize }, Degree { degree: 9, adj: 1isize });
        assert(written =~= ":#7,#9"@);
    }
    if kind == 22 {
        reveal_strlit("-");
        assert(written =~= "-"@);
    }
    if kind == 23 {
        reveal_strlit("-:b7");
        lemma_listed(Degree { degree: 7, adj: -1isize }, Degree { degree: 7, adj: -1isize });
        assert(written =~= "-:b7"@);
    }
    if kind == 24 {
        reveal_strlit("-:7");
        lemma_listed(Degree { degree: 7, adj: 0isize }, Degree { degree: 7, adj: 0isize });
        assert(written =~= "-:7"@);
    }
}

/// The chords that are offered are well formed, and their notations short.
pub proof fn lemma_offered_wf(root: int, kind: int)
    requires
        0 <= root,
        0 <= kind < CHORD_KINDS,
    ensures
        offered(root, kind).wf(),
        offered_extensions(kind).len() <= 2,
        numeral_of(root % 7 + 1, kind >= 16).len() <= 3,
{
    let extensions = offered_extensions(kind);
    assert forall|i: int| 0 <= i < extensions.len() implies (#[trigger] extensions[i]).wf() by {
        assert(extensions[i].degree >= 6);
    }
}

/// Every chord that is offered reads as the chord that it is offered for.
pub proof fn lemma_chord_option_reads(root: int, kind: int)
    requires
        0 <= root,
        0 <= kind < CHORD_KINDS,
    ensures
        parse_chord(chord_option(root, kind)) == Ok::<ChordSpecView, SpecChordParseError>(
            offered(root, kind),
        ),
{
    let v = offered(root, kind);
    assert(v.text() == chord_option(root, kind)) by {
        lemma_offered_text(root, kind);
        lemma_chord_kind(root, kind);
    }
    assert(canonical(v)) by {
        lemma_offered_wf(root, kind);
        lemma_chord_kind(root, kind);
        assert(v.text().len() == numeral_of(root % 7 + 1, kind >= 16).len() + chord_kind(
            kind,
        ).len());
    }
    lemma_round_trip(v);
}

/// The choice of a chord: a root among the seven numerals, the chords offered
/// on it, and the text of the chord chosen.
#[derive(Debug, Clone, PartialEq, Eq)]
pub struct ChordSelect {
    pub numeral: usize,
    pub select: Select,
    pub text_input: TextInput,
}

impl ChordSelect {
    /// The choices are the chords offered on the root.
    pub open spec fn wf(&self) -> bool {
        &&& self.select.choices@.len() == CHORD_KINDS
        &&& forall|kind: int|
            0 <= kind < CHORD_KINDS ==> (#[trigger] self.select.choices@[kind])@ == chord_option(
                self.numeral as int,
                kind,
            )
    }

    /// The choice that starts on the first numeral with its first chord.
    pub fn new() -> (choice: ChordSelect)
        ensures
            choice.wf(),
            choice.numeral == 0,
            choice.select.idx == 0,
            choice.text_input.input@ == chord_option(0, 0),
            choice.text_input.label@ == "Chord: "@,
    {
        let mut text_input = TextInput::new("Chord: ");
        let choices = chord_options(0);
        text_input.set_input(choices[0].clone());
        ChordSelect { numeral: 0, text_input, select: Select { idx: 0, choices } }
    }

    /// The choice with a given chord selected, where it is among those
    /// offered on its root; its notation is the text in either case.
    pub fn with_chord(cs: &ChordSpec) -> (choice: ChordSelect)
        requires
            cs.wf(),
        ensures
            choice.wf(),
            choice.numeral == cs.root.degree - 1,
            choice.text_input.input@ == cs@.text(),
            choice.text_input.label@ == "Chord: "@,
            choice.select.idx < CHORD_KINDS,
            choice.select.choices@[choice.select.idx as int]@ == cs@.text() || (choice.select.idx
                == 0 && forall|kind: int|
                0 <= kind < CHORD_KINDS ==> (#[trigger] choice.select.choices@[kind])@
                    != cs@.text()),
            forall|kind: int|
                0 <= kind < choice.select.idx ==> (#[trigger] choice.select.choices@[kind])@
                    != cs@.text(),
    {
        let cs_str = cs.to_string();
        let mut choice = ChordSelect::new();
        choice.set_numeral(cs.root.degree - 1);
        let idx = match choice.select.position(&cs_str) {
            Some(idx) => idx,
            None => 0,
        };
        choice.select.idx = idx;
        choice.text_input.set_input(cs_str);
        choice
    }

    /// Offers the chords on another root, counted from 0.
    pub fn set_numeral(&mut self, numeral_idx: usize)
        ensures
            final(self).wf(),
            final(self).numeral == numeral_idx,
            final(self).select.idx == old(self).select.idx,
            final(self).text_input == old(self).text_input,
    {
        self.numeral = numeral_idx;
        self.select.choices = chord_options(self.numeral);
    }

    /// Offers the chords on the root before; before the first of the seven
    /// comes the last. The first chord offered becomes the text.
    pub fn prev_numeral(&mut self)
        ensures
            final(self).wf(),
            final(self).numeral == (if old(self).numeral > 0 {
                old(self).numeral - 1
            } else {
                6
            }),
            final(self).select.idx == old(self).select.idx,
            final(self).text_input.input@ == chord_option(final(self).numeral as int, 0),
            final(self).text_input.label == old(self).text_input.label,
    {
        let numeral = if self.numeral > 0 {
            self.numeral - 1
        } else {
            6
        };
        self.set_numeral(numeral);
        self.text_input.set_input(self.select.choices[0].clone());
    }

    /// Offers the chords on the root after; after the last of the seven
    /// comes the first. The first chord offered becomes the text.
    pub fn next_numeral(&mut self)
        ensures
            final(self).wf(),
            final(self).numeral == (if old(self).numeral < 6 {
                old(self).numeral + 1
            } else {
                0
            }),
            final(self).select.idx == old(self).select.idx,
            final(self).text_input.input@ == chord_option(final(self).numeral as int, 0),
            final(self).text_input.label == old(self).text_input.label,
    {
        let numeral = if self.numeral < 6 {
            self.numeral + 1
        } else {
            0
        };
        self.set_numeral(numeral);
        self.text_input.set_input(self.select.choices[0].clone());
    }
}

impl Default for ChordSelect {
    /// The choice that starts on the first numeral with its first chord.
    fn default() -> (choice: ChordSelect)
        ensures
            choice.wf(),
            choice.numeral == 0,
            choice.select.idx == 0,
            choice.text_input.input@ == chord_option(0, 0),
            choice.text_input.label@ == "Chord: "@,
    {
        ChordSelect::new()
    }
}

/// The first place at or after `from` at which a chord stands among the
/// candidates, or their number where it stands at none.
pub open spec fn first_place(candidates: Seq<ChordSpecView>, chord: ChordSpecView, from: int) -> int
    decreases candidates.len() - from,
{
    if from < 0 || from >= candidates.len() {
        candidates.len() as int
    } else if candidates[from] == chord {
        from
    } else {
        first_place(candidates, chord, from + 1)
    }
}

/// `first_place` gives the first place at or after `from` that holds the
/// chord, or the number of candidates where none does.
pub proof fn lemma_first_place(candidates: Seq<ChordSpecView>, chord: ChordSpecView, from: int)
    requires
        0 <= from <= candidates.len(),
    ensures
        from <= first_place(candidates, chord, from) <= candidates.len(),
        forall|i: int|
            from <= i < first_place(candidates, chord, from) ==> #[trigger] candidates[i] != chord,
        first_place(candidates, chord, from) < candidates.len() ==> candidates[first_place(
            candidates,
            chord,
            from,
        )] == chord,
    decreases candidates.len() - from,
{
    if from < candidates.len() && candidates[from] != chord {
        lemma_first_place(candidates, chord, from + 1);
    }
}

/// The place among the candidates that follows the first place of the
/// current chord, the last place being followed by the first; the first
/// place if the chord is not among them.
pub open spec fn place_after(candidates: Seq<ChordSpecView>, current: ChordSpecView) -> int {
    let at = first_place(candidates, current, 0);
    if at + 1 < candidates.len() {
        at + 1
    } else {
        0
    }
}

/// The place among the candidates that comes before the first place of the
/// current chord, the first place being preceded by the last; the first place
/// if the chord is not among them.
pub open spec fn place_before(candidates: Seq<ChordSpecView>, current: ChordSpecView) -> int {
    let at = first_place(candidates, current, 0);
    if 0 < at < candidates.len() {
        at - 1
    } else if at == 0 && candidates.len() > 0 {
        candidates.len() - 1
    } else {
        0
    }
}

/// Finds the first place of a chord among the candidates.
fn place_of(candidates: &Vec<ChordSpec>, current: &ChordSpec) -> (at: usize)
    ensures
        at == first_place(views(candidates@), current@, 0),
        at <= candidates@.len(),
{
    let mut at: usize = 0;
    while at < candidates.len()
        invariant
            at <= candidates.len(),
            first_place(views(candidates@), current@, 0) == first_place(
                views(candidates@),
                current@,
                at as int,
            ),
        decreases candidates.len() - at,
    {
        assert(views(candidates@)[at as int] == candidates@[at as int]@);
        if candidates[at].same(current) {
            return at;
        }
        at += 1;
    }
    at
}

/// The place of the candidate to cycle up to from the current chord.
pub fn next_candidate(candidates: &Vec<ChordSpec>, current: &ChordSpec) -> (place: usize)
    ensures
        place == place_after(views(candidates@), current@),
        candidates@.len() > 0 ==> place < candidates@.len(),
{
    let at = place_of(candidates, current);
    if at < candidates.len() && at + 1 < candidates.len() {
        at + 1
    } else {
        0
    }
}

/// The place of the candidate to cycle down to from the current chord.
pub fn prev_candidate(candidates: &Vec<ChordSpec>, current: &ChordSpec) -> (place: usize)
    ensures
        place == place_before(views(candidates@), current@),
        candidates@.len() > 0 ==> place < candidates@.len(),
{
    let at = place_of(candidates, current);
    if at > 0 && at < candidates.len() {
        at - 1
    } else if at == 0 && candidates.len() > 0 {
        candidates.len() - 1
    } else {
        0
    }
}

/// The place of the cursor in a grid of bars: a column among the ticks of a
/// bar, and a row among the bars.
#[derive(Debug, Clone, Copy, PartialEq, Eq, Structural)]
pub struct Cursor {
    pub column: usize,
    pub row: usize,
}

impl Cursor {
    /// The tick of the grid that the cursor is on.
    pub open spec fn spec_index(self, ticks_per_bar: usize) -> int {
        self.row * ticks_per_bar + self.column
    }

    /// The tick of the grid that the cursor is on.
    pub fn index(&self, ticks_per_bar: usize) -> (seq_idx: usize)
        requires
            self.spec_index(ticks_per_bar) <= usize::MAX,
        ensures
            seq_idx == self.spec_index(ticks_per_bar),
    {
        assert(self.row * ticks_per_bar <= usize::MAX) by (nonlinear_arith)
            requires
                self.row * ticks_per_bar + self.column <= usize::MAX,
                self.row >= 0,
                ticks_per_bar >= 0,
                self.column >= 0,
        ;
        self.row * ticks_per_bar + self.column
    }

    /// The cursor on a tick of the grid.
    pub fn at(seq_idx: usize, ticks_per_bar: usize) -> (cursor: Cursor)
        requires
            ticks_per_bar > 0,
        ensures
            cursor.row == seq_idx / ticks_per_bar,
            cursor.column == seq_idx % ticks_per_bar,
            cursor.spec_index(ticks_per_bar) == seq_idx,
    {
        proof {
            vstd::arithmetic::div_mod::lemma_fundamental_div_mod(
                seq_idx as int,
                ticks_per_bar as int,
            );
            assert((seq_idx / ticks_per_bar) * ticks_per_bar == ticks_per_bar * (seq_idx
                / ticks_per_bar)) by (nonlinear_arith);
        }
        Cursor { row: seq_idx / ticks_per_bar, column: seq_idx % ticks_per_bar }
    }

    /// One tick to the right; from the last tick of the bar to its first.
    pub fn right(&mut self, ticks_per_bar: usize)
        ensures
            final(self).row == old(self).row,
            final(self).column == (if old(self).column + 1 >= ticks_per_bar {
                0
            } else {
                old(self).column + 1
            }),
    {
        if self.column == usize::MAX || self.column + 1 >= ticks_per_bar {
            self.column = 0;
        } else {
            self.column += 1;
        }
    }

    /// One tick to the left; from the first tick of the bar to its last.
    pub fn left(&mut self, ticks_per_bar: usize)
        ensures
            final(self).row == old(self).row,
            final(self).column == (if old(self).column > 0 {
                old(self).column - 1
            } else if ticks_per_bar > 0 {
                ticks_per_bar - 1
            } else {
                0
            }),
    {
        if self.column > 0 {
            self.column -= 1;
        } else if ticks_per_bar > 0 {
            self.column = ticks_per_bar - 1;
        }
    }

    /// One bar down; from the last bar to the first.
    pub fn down(&mut self, bars: usize)
        ensures
            final(self).column == old(self).column,
            final(self).row == (if old(self).row + 1 >= bars {
                0
            } else {
                old(self).row + 1
            }),
    {
        if self.row == usize::MAX || self.row + 1 >= bars {
            self.row = 0;
        } else {
            self.row += 1;
        }
    }

    /// One bar up; from the first bar to the last.
    pub fn up(&mut self, bars: usize)
        ensures
            final(self).column == old(self).column,
            final(self).row == (if old(self).row > 0 {
                old(self).row - 1
            } else if bars > 0 {
                bars - 1
            } else {
                0
            }),
    {
        if self.row > 0 {
            self.row -= 1;
        } else if bars > 0 {
            self.row = bars - 1;
        }
    }
}

} // verus!
