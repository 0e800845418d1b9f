//! Reads the flag of a node from the text of its `flag` entry.
use crate::focustree::Flag;
use crate::multistringmap::texts;
use crate::yaml::{same_text, Yaml};
use vstd::prelude::*;
use vstd::string::{StrSliceExecFns, StringExecFns};

verus! {

/// What `str::to_uppercase` makes of a text.
pub uninterp spec fn uppercase_of(text: Seq<char>) -> Seq<char>;

/// What `str::to_lowercase` makes of a text.
pub uninterp spec fn lowercase_of(text: Seq<char>) -> Seq<char>;

/// `str::to_uppercase`.
#[verifier::external_body]
fn to_uppercase(text: &str) -> (upper: String)
    ensures
        upper@ == uppercase_of(text@),
{
    text.to_uppercase()
}

/// `str::to_lowercase`.
#[verifier::external_body]
fn to_lowercase(text: &str) -> (lower: String)
    ensures
        lower@ == lowercase_of(text@),
{
    text.to_lowercase()
}

/// The index of the first space of a text, or its length where it has none.
pub open spec fn first_space(text: Seq<char>) -> int
    decreases text.len(),
{
    if text.len() == 0 {
        0
    } else if text[0] == ' ' {
        0
    } else {
        1 + first_space(text.drop_first())
    }
}

/// The words of a text: what stands between its spaces. Two spaces in a row
/// have an empty word between them.
pub open spec fn words(text: Seq<char>) -> Seq<Seq<char>>
    decreases text.len(),
{
    let space = first_space(text);
    if 0 <= space < text.len() {
        seq![text.take(space)] + words(text.skip(space + 1))
    } else {
        seq![text]
    }
}

/// A word that is written in upper case throughout and has a letter to show
/// for it.
pub open spec fn shouted(word: Seq<char>) -> bool {
    word == uppercase_of(word) && word != lowercase_of(word)
}

/// The warning about a word in upper case that is no flag.
pub open spec fn unrecognized_note(word: Seq<char>) -> Seq<char> {
    "Warning: Unrecognized all uppercase flag \""@ + word + "\". It has been ignored."@
}

/// The warning about a node that is flagged both ways.
pub open spec fn both_note(kept: Seq<char>) -> Seq<char> {
    "Warning: Both FOCUS and PENDING flags have been found among the flags of a node. "@ + kept
        + " has been kept."@
}

/// What has been made of the words read so far.
pub struct Reading {
    pub flag: Flag,
    /// The word that set the flag.
    pub kept: Seq<char>,
    /// Whether both flags were met.
    pub both: bool,
    /// The warnings about words that are no flags.
    pub notes: Seq<Seq<char>>,
}

/// The reading after one more word.
pub open spec fn read_word(before: Reading, word: Seq<char>) -> Reading {
    if word == "FOCUS"@ {
        Reading {
            flag: Flag::Focus,
            kept: word,
            both: before.both || before.flag == Flag::Skip,
            notes: before.notes,
        }
    } else if word == "PENDING"@ {
        Reading {
            flag: Flag::Skip,
            kept: word,
            both: before.both || before.flag == Flag::Focus,
            notes: before.notes,
        }
    } else if shouted(word) {
        Reading { notes: before.notes.push(unrecognized_note(word)), ..before }
    } else {
        before
    }
}

/// The reading of a list of words, from the first to the last.
pub open spec fn read_words(list: Seq<Seq<char>>) -> Reading
    decreases list.len(),
{
    if list.len() == 0 {
        Reading { flag: Flag::Unset, kept: Seq::empty(), both: false, notes: Seq::empty() }
    } else {
        read_word(read_words(list.drop_last()), list.last())
    }
}

/// The flag that a text sets: that of the last `FOCUS` or `PENDING` among its
/// words.
pub open spec fn flag_of_text(text: Seq<char>) -> Flag {
    read_words(words(text)).flag
}

/// The warnings that a text gives rise to: one for each word in upper case
/// that is no flag, then one where both flags were met.
pub open spec fn notes_of_text(text: Seq<char>) -> Seq<Seq<char>> {
    let reading = read_words(words(text));
    if reading.both {
        reading.notes.push(both_note(reading.kept))
    } else {
        reading.notes
    }
}

proof fn lemma_first_space(text: Seq<char>)
    ensures
        0 <= first_space(text) <= text.len(),
        first_space(text) < text.len() ==> text[first_space(text)] == ' ',
        forall|k: int| 0 <= k < first_space(text) ==> text[k] != ' ',
    decreases text.len(),
{
    if text.len() > 0 && text[0] != ' ' {
        lemma_first_space(text.drop_first());
        assert forall|k: int| 0 <= k < first_space(text) implies text[k] != ' ' by {
            if k > 0 {
                assert(text[k] == text.drop_first()[k - 1]);
            }
        }
    }
}

/// The first space of a text is where its first space is.
proof fn lemma_first_space_at(text: Seq<char>, at: int)
    requires
        0 <= at <= text.len(),
        forall|k: int| 0 <= k < at ==> text[k] != ' ',
        at < text.len() ==> text[at] == ' ',
    ensures
        first_space(text) == at,
{
    lemma_first_space(text);
}

/// Splits a text at its spaces.
pub fn split_words(text: &str) -> (list: Vec<String>)
    ensures
        texts(list@) == words(text@),
{
    let mut list: Vec<String> = Vec::new();
    let len = text.unicode_len();
    let mut start: usize = 0;
    let mut i: usize = 0;
    assert(text@.skip(0) =~= text@);
    assert(texts(list@) + words(text@) =~= words(text@));
    while i < len
        invariant
            len == text@.len(),
            start <= i <= len,
            forall|k: int| start <= k < i ==> text@[k] != ' ',
            words(text@) == texts(list@) + words(text@.skip(start as int)),
        decreases len - i,
    {
        if text.get_char(i) == ' ' {
            let word = text.substring_char(start, i);
            let ghost rest = text@.skip(start as int);
            let ghost found = texts(list@);
            proof {
                assert forall|k: int| 0 <= k < i - start implies rest[k] != ' ' by {
                    assert(rest[k] == text@[start + k]);
                }
                lemma_first_space_at(rest, i - start);
                assert(rest.take(i - start) =~= text@.subrange(start as int, i as int));
                assert(rest.skip(i - start + 1) =~= text@.skip(i as int + 1));
            }
            list.push(word.to_owned());
            proof {
                assert(texts(list@) =~= found.push(word@));
                assert(found + (seq![word@] + words(text@.skip(i as int + 1))) =~= found.push(
                    word@,
                ) + words(text@.skip(i as int + 1)));
            }
            start = i + 1;
        }
        i = i + 1;
    }
    let word = text.substring_char(start, len);
    let ghost rest = text@.skip(start as int);
    let ghost found = texts(list@);
    proof {
        assert forall|k: int| 0 <= k < len - start implies rest[k] != ' ' by {
            assert(rest[k] == text@[start + k]);
        }
        lemma_first_space_at(rest, len - start);
        assert(rest =~= text@.subrange(start as int, len as int));
    }
    list.push(word.to_owned());
    proof {
        assert(texts(list@) =~= found.push(word@));
        assert(found + seq![word@] =~= found.push(word@));
    }
    list
}

/// Reads the flag that the text of a node sets, and adds to `warnings` what
/// there is to say about the text. The node has to be a string.
pub fn read_flag(node: &Yaml, warnings: &mut Vec<String>) -> (flag: Flag)
    requires
        node@.value is Text,
    ensures
        flag == flag_of_text(node@.value->Text_0),
        texts(final(warnings)@) == texts(old(warnings)@) + notes_of_text(node@.value->Text_0),
{
    let mut flag = Flag::Unset;
    // flag_name is used for printing warning(s) if needed
    let mut flag_name = String::new();
    let mut both = false;

    let text = node.data.as_str().unwrap();
    let list = split_words(text);
    let ghost all = words(node@.value->Text_0);
    let ghost before = texts(warnings@);

    let mut i: usize = 0;
    assert(all.take(0) =~= Seq::<Seq<char>>::empty());
    assert(texts(warnings@) =~= before + Seq::<Seq<char>>::empty());
    while i < list.len()
        invariant
            i <= list.len(),
            all == texts(list@),
            before == texts(old(warnings)@),
            ({
                let reading = read_words(all.take(i as int));
                &&& flag == reading.flag
                &&& flag_name@ == reading.kept
                &&& both == reading.both
                &&& texts(warnings@) == before + reading.notes
            }),
        decreases list.len() - i,
    {
        let word = list[i].as_str();
        let ghost reading = read_words(all.take(i as int));
        proof {
            assert(all.take(i as int + 1).drop_last() =~= all.take(i as int));
            assert(all.take(i as int + 1).last() == word@);
        }
        if same_text(word, "FOCUS") {
            if flag == Flag::Skip {
                both = true
            }
            flag = Flag::Focus;
            flag_name = word.to_owned();
        } else if same_text(word, "PENDING") {
            if flag == Flag::Focus {
                both = true
            }
            flag = Flag::Skip;
            flag_name = word.to_owned();
        } else {
            let upper = to_uppercase(word);
            let lower = to_lowercase(word);
            if same_text(word, upper.as_str()) && !same_text(word, lower.as_str()) {
                let mut note = String::from_str("Warning: Unrecognized all uppercase flag \"");
                note.append(word);
                note.append("\". It has been ignored.");
                let ghost held = texts(warnings@);
                warnings.push(note);
                proof {
                    assert(texts(warnings@) =~= held.push(unrecognized_note(word@)));
                    assert(before + reading.notes.push(unrecognized_note(word@)) =~= (before
                        + reading.notes).push(unrecognized_note(word@)));
                }
            }
        }
        i = i + 1;
    }
    assert(all.take(i as int) =~= all);

    if both {
        let mut note = String::from_str(
            "Warning: Both FOCUS and PENDING flags have been found among the flags of a node. ",
        );
        note.append(flag_name.as_str());
        note.append(" has been kept.");
        let ghost held = texts(warnings@);
        let ghost reading = read_words(all);
        warnings.push(note);
        proof {
            assert(texts(warnings@) =~= held.push(both_note(flag_name@)));
            assert(before + reading.notes.push(both_note(flag_name@)) =~= (before
                + reading.notes).push(both_note(flag_name@)));
        }
    }
    flag
}

} // verus!
