//! Note-name languages: which words are notes, and which notes they are.
use vstd::prelude::*;
use vstd::string::StringExecFns;
use crate::text::same;

verus! {

/// One word for a note.
#[derive(Debug)]
pub struct NoteName {
    pub text: String,
    pub note_name: u8,
    pub alteration: i8,
}

/// A note-name language, by its words.
#[derive(Debug)]
pub struct NoteLanguage {
    pub name: String,
    pub notes: Vec<NoteName>,
}

/// The note the first of `notes` spelled `text` stands for.
pub open spec fn note_among(notes: Seq<NoteName>, text: Seq<char>) -> Option<(u8, i8)>
    decreases notes.len(),
{
    if notes.len() == 0 {
        None
    } else if notes[0].text@ == text {
        Some((notes[0].note_name, notes[0].alteration))
    } else {
        note_among(notes.drop_first(), text)
    }
}

impl NoteLanguage {
    /// The note name and alteration `text` stands for, if it is a note.
    pub fn note(&self, text: &str) -> (r: Option<(u8, i8)>)
        ensures
            r == note_among(self.notes@, text@),
    {
        let mut k: usize = 0;
        assert(self.notes@.subrange(0, self.notes@.len() as int) =~= self.notes@);
        while k < self.notes.len()
            invariant
                k <= self.notes@.len(),
                note_among(self.notes@, text@) == note_among(
                    self.notes@.subrange(k as int, self.notes@.len() as int),
                    text@,
                ),
            decreases self.notes.len() - k,
        {
            if same(self.notes[k].text.as_str(), text) {
                return Some((self.notes[k].note_name, self.notes[k].alteration));
            }
            assert(self.notes@.subrange(k as int, self.notes@.len() as int).drop_first()
                =~= self.notes@.subrange(k + 1, self.notes@.len() as int));
            k = k + 1;
        }
        None
    }
}

/// The word for the unaltered note `note_name`.
pub open spec fn natural_among(notes: Seq<NoteName>, note_name: int) -> Option<Seq<char>>
    decreases notes.len(),
{
    if notes.len() == 0 {
        None
    } else if notes[0].note_name == note_name && notes[0].alteration == 0 {
        Some(notes[0].text@)
    } else {
        natural_among(notes.drop_first(), note_name)
    }
}

/// The words for the first `n` unaltered notes, from C up, with a comma between them.
pub open spec fn naturals_listed(notes: Seq<NoteName>, n: int) -> Seq<char>
    decreases n,
{
    if n <= 0 {
        Seq::empty()
    } else {
        let before = naturals_listed(notes, n - 1);
        match natural_among(notes, n - 1) {
            Some(word) => if before.len() == 0 {
                word
            } else {
                before + ", "@ + word
            },
            None => before,
        }
    }
}

impl NoteLanguage {
    fn natural(&self, note_name: u8) -> (r: Option<&str>)
        ensures
            match r {
                Some(word) => natural_among(self.notes@, note_name as int) == Some(word@),
                None => natural_among(self.notes@, note_name as int) is None,
            },
    {
        let mut k: usize = 0;
        assert(self.notes@.subrange(0, self.notes@.len() as int) =~= self.notes@);
        while k < self.notes.len()
            invariant
                k <= self.notes@.len(),
                natural_among(self.notes@, note_name as int) == natural_among(
                    self.notes@.subrange(k as int, self.notes@.len() as int),
                    note_name as int,
                ),
            decreases self.notes.len() - k,
        {
            if self.notes[k].note_name == note_name && self.notes[k].alteration == 0 {
                return Some(self.notes[k].text.as_str());
            }
            assert(self.notes@.subrange(k as int, self.notes@.len() as int).drop_first()
                =~= self.notes@.subrange(k + 1, self.notes@.len() as int));
            k = k + 1;
        }
        None
    }

    /// The words for the unaltered notes, from C up, with a comma between them.
    pub fn naturals(&self) -> (r: String)
        ensures
            r@ == naturals_listed(self.notes@, 7),
    {
        let mut out = String::new();
        let mut n: u8 = 0;
        while n < 7
            invariant
                n <= 7,
                out@ == naturals_listed(self.notes@, n as int),
            decreases 7 - n,
        {
            match self.natural(n) {
                Some(word) => {
                    if out.as_str().is_empty() {
                        out = word.to_string();
                    } else {
                        out.append(", ");
                        out.append(word);
                    }
                },
                None => {},
            }
            n = n + 1;
        }
        out
    }
}

/// The letter of a note, counted from C up.
pub open spec fn dutch_letter(note_name: int) -> Seq<char> {
    if note_name == 0 {
        "c"@
    } else if note_name == 1 {
        "d"@
    } else if note_name == 2 {
        "e"@
    } else if note_name == 3 {
        "f"@
    } else if note_name == 4 {
        "g"@
    } else if note_name == 5 {
        "a"@
    } else {
        "b"@
    }
}

/// The syllables that raise or lower a Dutch note by an alteration.
pub open spec fn dutch_suffix(alteration: int) -> Seq<char> {
    if alteration == 0 {
        ""@
    } else if alteration == 1 {
        "is"@
    } else if alteration == 2 {
        "isis"@
    } else if alteration == -1 {
        "es"@
    } else {
        "eses"@
    }
}

/// What a word stands for.
pub struct NoteView {
    pub text: Seq<char>,
    pub note_name: int,
    pub alteration: int,
}

/// What each of a run of words stands for.
pub open spec fn note_views(notes: Seq<NoteName>) -> Seq<NoteView> {
    notes.map_values(
        |note: NoteName|
            NoteView {
                text: note.text@,
                note_name: note.note_name as int,
                alteration: note.alteration as int,
            },
    )
}

/// A Dutch note with its letter written out.
pub open spec fn dutch_note(note_name: int, alteration: int) -> NoteView {
    NoteView { text: dutch_letter(note_name) + dutch_suffix(alteration), note_name, alteration }
}

/// The Dutch notes of the first `n` letters, each from doubly flat to doubly sharp.
pub open spec fn dutch_notes(n: int) -> Seq<NoteView>
    decreases n,
{
    if n <= 0 {
        Seq::empty()
    } else {
        dutch_notes(n - 1) + seq![
            dutch_note(n - 1, -2),
            dutch_note(n - 1, -1),
            dutch_note(n - 1, 0),
            dutch_note(n - 1, 1),
            dutch_note(n - 1, 2),
        ]
    }
}

/// The Dutch notes that drop the vowel of their letter or of their suffix.
pub open spec fn dutch_contractions() -> Seq<NoteView> {
    seq![
        NoteView { text: "es"@, note_name: 2, alteration: -1 },
        NoteView { text: "eses"@, note_name: 2, alteration: -2 },
        NoteView { text: "as"@, note_name: 5, alteration: -1 },
        NoteView { text: "ases"@, note_name: 5, alteration: -2 },
    ]
}

fn letter_of(note_name: u8) -> (r: &'static str)
    ensures
        r@ == dutch_letter(note_name as int),
{
    if note_name == 0 {
        "c"
    } else if note_name == 1 {
        "d"
    } else if note_name == 2 {
        "e"
    } else if note_name == 3 {
        "f"
    } else if note_name == 4 {
        "g"
    } else if note_name == 5 {
        "a"
    } else {
        "b"
    }
}

fn suffix_of(alteration: i8) -> (r: &'static str)
    ensures
        r@ == dutch_suffix(alteration as int),
{
    if alteration == 0 {
        ""
    } else if alteration == 1 {
        "is"
    } else if alteration == 2 {
        "isis"
    } else if alteration == -1 {
        "es"
    } else {
        "eses"
    }
}

fn dutch_name(note_name: u8, alteration: i8) -> (r: NoteName)
    ensures
        r.text@ == dutch_letter(note_name as int) + dutch_suffix(alteration as int),
        r.note_name == note_name,
        r.alteration == alteration,
{
    let mut text = letter_of(note_name).to_string();
    text.append(suffix_of(alteration));
    NoteName { text, note_name, alteration }
}

impl NoteLanguage {
    /// The Dutch note names, those in force where nothing selects others.
    pub fn nederlands() -> (r: Self)
        ensures
            r.name@ == "nederlands"@,
            note_views(r.notes@) == dutch_notes(7) + dutch_contractions(),
    {
        let mut notes: Vec<NoteName> = Vec::new();
        let mut n: u8 = 0;
        assert(note_views(notes@) =~= Seq::empty());
        while n < 7
            invariant
                n <= 7,
                note_views(notes@) == dutch_notes(n as int),
            decreases 7 - n,
        {
            let ghost before = note_views(notes@);
            notes.push(dutch_name(n, -2));
            notes.push(dutch_name(n, -1));
            notes.push(dutch_name(n, 0));
            notes.push(dutch_name(n, 1));
            notes.push(dutch_name(n, 2));
            assert(note_views(notes@) =~= before + seq![
                dutch_note(n as int, -2),
                dutch_note(n as int, -1),
                dutch_note(n as int, 0),
                dutch_note(n as int, 1),
                dutch_note(n as int, 2),
            ]);
            n = n + 1;
        }
        let ghost before = note_views(notes@);
        notes.push(NoteName { text: "es".to_string(), note_name: 2, alteration: -1 });
        notes.push(NoteName { text: "eses".to_string(), note_name: 2, alteration: -2 });
        notes.push(NoteName { text: "as".to_string(), note_name: 5, alteration: -1 });
        notes.push(NoteName { text: "ases".to_string(), note_name: 5, alteration: -2 });
        assert(note_views(notes@) =~= before + dutch_contractions());
        NoteLanguage { name: "nederlands".to_string(), notes }
    }
}

} // verus!
