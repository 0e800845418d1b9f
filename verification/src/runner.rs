//! Runs the tiles of a set of specification files through a test box, and
//! reports what came of them.
use crate::file::File;
use crate::focustree::{
    bump, capped, extract_focused_leaf_values, law_skip_pruning, reached_unskipped, selected_leaves,
    survey, Flag, FlagStat,
};
use crate::multistringmap::{product_size, texts, tile, Dict, Entry, MultiStringMap};
use crate::nodule::{
    first_failure, flat, law_matrix_inheritance, lemma_children_view, lemma_first_failure,
    lemma_first_failure_at, load_notes, loaded, location_text, populated, root_notes, roots_built,
    seed_matrix, slabs, sound, successes, Blame, Nodule, SchemaError, Slab,
};
use crate::text::{decimal, digits, join, joined, lemma_utf8_concat};
use crate::tree::{
    lemma_notices_view, lemma_selected_view, lemma_survey_view, slab_notices, slab_size,
};
use crate::writable::{lemma_follows_twice, Writable};
use crate::yaml::{bad_node, nodes, same_text, Yaml};
use vstd::utf8::encode_utf8;
use vstd::prelude::*;
use vstd::string::{StrSliceExecFns, StringExecFns};

verus! {

/// What became of a tile.
#[derive(Debug, Default, Clone, Copy, PartialEq, Eq, Structural)]
pub enum FailStatus {
    #[default]
    Pristine,
    Failed,
    Aborted,
    Panicked,
}

/// What became of a tile, and what there is to say of it.
pub struct Outcome {
    pub status: FailStatus,
    pub info: Seq<char>,
}

/// What a test box answers, as a mathematical value.
pub open spec fn answer_text(answer: Result<(), String>) -> Result<(), Seq<char>> {
    match answer {
        Ok(()) => Ok(()),
        Err(message) => Err(message@),
    }
}

/// Whether a message asks for the tile to be counted as aborted.
pub open spec fn is_abort(message: Seq<char>) -> bool {
    message.len() >= 5 && message.take(5) == "ABORT"@
}

/// What an answer of the test box makes of a tile. A success leaves it
/// pristine. A message that starts with `ABORT` aborts it, and what follows
/// the word is the reason; any other message fails it.
pub open spec fn outcome_of(answer: Result<(), Seq<char>>) -> Outcome {
    match answer {
        Ok(()) => Outcome { status: FailStatus::Pristine, info: Seq::empty() },
        Err(message) => if is_abort(message) {
            Outcome { status: FailStatus::Aborted, info: message.skip(5) }
        } else {
            Outcome { status: FailStatus::Failed, info: message }
        },
    }
}

/// Works out what an answer of the test box makes of a tile.
pub fn classify(answer: Result<(), String>) -> (outcome: (FailStatus, String))
    ensures
        outcome_of(answer_text(answer)) == (Outcome { status: outcome.0, info: outcome.1@ }),
{
    match answer {
        Ok(()) => (FailStatus::Pristine, String::new()),
        Err(message) => {
            proof {
                reveal_strlit("ABORT");
            }
            let len = message.as_str().unicode_len();
            if len >= 5 && same_text(message.as_str().substring_char(0, 5), "ABORT") {
                let info = message.as_str().substring_char(5, len).to_owned();
                assert(message@.subrange(5, len as int) =~= message@.skip(5));
                assert(message@.subrange(0, 5) =~= message@.take(5));
                (FailStatus::Aborted, info)
            } else {
                if len >= 5 {
                    assert(message@.subrange(0, 5) =~= message@.take(5));
                }
                (FailStatus::Failed, message)
            }
        },
    }
}

/// The word that a report line starts with.
pub open spec fn status_word(status: FailStatus) -> Seq<char> {
    match status {
        FailStatus::Pristine => ""@,
        FailStatus::Failed => "FAIL"@,
        FailStatus::Aborted => "ABORT"@,
        FailStatus::Panicked => "PANIC"@,
    }
}

/// The report line for a tile that did not pass.
pub open spec fn failure_line(outcome: Outcome, location: Seq<char>, index: u64) -> Seq<char> {
    status_word(outcome.status) + "["@ + location + "]["@ + digits(index as nat) + "]: "@
        + outcome.info
}

/// The count of a run, as mathematical values.
pub struct Tally {
    pub tile_count: nat,
    pub tile_passed: nat,
    pub tile_failed: nat,
    pub tile_aborted: nat,
    pub tile_panicked: nat,
    pub failure_report: Seq<Seq<char>>,
}

/// The count before any tile was run.
pub open spec fn empty_tally() -> Tally {
    Tally {
        tile_count: 0,
        tile_passed: 0,
        tile_failed: 0,
        tile_aborted: 0,
        tile_panicked: 0,
        failure_report: Seq::empty(),
    }
}

/// The count after one more tile: the tile is counted, and counted again
/// under what became of it; a tile that did not pass adds a line.
pub open spec fn recorded(tally: Tally, outcome: Outcome, location: Seq<char>, index: u64) -> Tally {
    Tally {
        tile_count: tally.tile_count + 1,
        tile_passed: tally.tile_passed + if outcome.status == FailStatus::Pristine {
            1nat
        } else {
            0nat
        },
        tile_failed: tally.tile_failed + if outcome.status == FailStatus::Failed {
            1nat
        } else {
            0nat
        },
        tile_aborted: tally.tile_aborted + if outcome.status == FailStatus::Aborted {
            1nat
        } else {
            0nat
        },
        tile_panicked: tally.tile_panicked + if outcome.status == FailStatus::Panicked {
            1nat
        } else {
            0nat
        },
        failure_report: if outcome.status == FailStatus::Pristine {
            tally.failure_report
        } else {
            tally.failure_report.push(failure_line(outcome, location, index))
        },
    }
}

/// The count after the tiles of one leaf, whose outcomes are given in the
/// order of the tiles. A tile is known in the report by its index in that
/// order, which stops at `u64::MAX`.
pub open spec fn leaf_tally(tally: Tally, location: Seq<char>, outcomes: Seq<Outcome>) -> Tally
    decreases outcomes.len(),
{
    if outcomes.len() == 0 {
        tally
    } else {
        recorded(
            leaf_tally(tally, location, outcomes.drop_last()),
            outcomes.last(),
            location,
            capped(outcomes.len() - 1),
        )
    }
}

/// The state of a run: the count so far, each counter stopping at
/// `u64::MAX`, and the last tile.
struct RunState {
    tile_count: u64,
    tile_passed: u64,
    tile_failed: u64,
    tile_aborted: u64,
    tile_panicked: u64,
    failure_report: Vec<String>,
    status: FailStatus,
    fail_info: String,
}

impl RunState {
    /// The state stands for the count `tally`.
    spec fn stands_for(&self, tally: Tally) -> bool {
        &&& self.tile_count == capped(tally.tile_count as int)
        &&& self.tile_passed == capped(tally.tile_passed as int)
        &&& self.tile_failed == capped(tally.tile_failed as int)
        &&& self.tile_aborted == capped(tally.tile_aborted as int)
        &&& self.tile_panicked == capped(tally.tile_panicked as int)
        &&& crate::multistringmap::texts(self.failure_report@) == tally.failure_report
    }

    fn new() -> (state: RunState)
        ensures
            state.stands_for(empty_tally()),
    {
        let state = RunState {
            tile_count: 0,
            tile_passed: 0,
            tile_failed: 0,
            tile_aborted: 0,
            tile_panicked: 0,
            failure_report: Vec::new(),
            status: FailStatus::Pristine,
            fail_info: String::new(),
        };
        assert(crate::multistringmap::texts(state.failure_report@) =~= Seq::<Seq<char>>::empty());
        state
    }

    /// Takes in the answer of the test box for one tile.
    fn record(
        &mut self,
        answer: Result<(), String>,
        slab_location: &str,
        index: u64,
        Ghost(tally): Ghost<Tally>,
    )
        requires
            old(self).stands_for(tally),
        ensures
            final(self).stands_for(
                recorded(tally, outcome_of(answer_text(answer)), slab_location@, index),
            ),
    {
        // Tile Start
        self.status = FailStatus::Pristine;
        self.fail_info = String::new();

        // Tile Run
        let (status, fail_info) = classify(answer);
        self.status = status;
        self.fail_info = fail_info;

        // Tile End
        self.tile_count = bump(self.tile_count);
        match self.status {
            FailStatus::Pristine => {
                self.tile_passed = bump(self.tile_passed);
            },
            FailStatus::Failed => {
                self.tile_failed = bump(self.tile_failed);
            },
            FailStatus::Aborted => {
                self.tile_aborted = bump(self.tile_aborted);
            },
            FailStatus::Panicked => {
                self.tile_panicked = bump(self.tile_panicked);
            },
        }
        // summarize the failures
        if self.status != FailStatus::Pristine {
            let word = match self.status {
                FailStatus::Failed => "FAIL",
                FailStatus::Aborted => "ABORT",
                FailStatus::Panicked => "PANIC",
                _ => "",
            };
            let mut message = String::from_str(word);
            message.append("[");
            message.append(slab_location);
            message.append("][");
            message.append(decimal(index as u128).as_str());
            message.append("]: ");
            message.append(self.fail_info.as_str());
            let ghost held = crate::multistringmap::texts(self.failure_report@);
            self.failure_report.push(message);
            assert(crate::multistringmap::texts(self.failure_report@) =~= held.push(message@));
        }
    }
}

/// The line that says how many flagged nodes were met, or nothing where none
/// was.
pub open spec fn stat_line(focus_count: u64, skip_count: u64) -> Seq<char> {
    if focus_count > 0 && skip_count > 0 {
        "Encountered "@ + digits(focus_count as nat) + " focused node(s)"@ + " and "@ + digits(
            skip_count as nat,
        ) + " pending node(s)"@ + "\n"@
    } else if focus_count > 0 {
        "Encountered "@ + digits(focus_count as nat) + " focused node(s)"@ + "\n"@
    } else if skip_count > 0 {
        "Encountered "@ + digits(skip_count as nat) + " pending node(s)"@ + "\n"@
    } else {
        Seq::empty()
    }
}

/// Whether every tile of a count passed.
pub open spec fn succeeded(tally: Tally) -> bool {
    tally.failure_report.len() == 0
}

/// The start of the two lines that close a report, up to the time that the
/// run took.
pub open spec fn summary_head(tally: Tally) -> Seq<char> {
    "Ran "@ + digits(capped(tally.tile_count as int) as nat) + " tiles in "@
}

/// The end of the two lines that close a report, from the time that the run
/// took: the outcome and the count under each heading.
pub open spec fn summary_tail(tally: Tally) -> Seq<char> {
    "ms\n"@ + (if succeeded(tally) {
        "SUCCESS"@
    } else {
        "FAILURE"@
    }) + " -- "@ + digits(capped(tally.tile_passed as int) as nat) + " Passed | "@ + digits(
        capped(tally.tile_failed as int) as nat,
    ) + " Failed | "@ + digits(capped(tally.tile_aborted as int) as nat) + " Aborted | "@ + digits(
        capped(tally.tile_panicked as int) as nat,
    ) + " Panicked"@ + "\n"@
}

/// The two lines that close a report: how many tiles were run and how long it
/// took, in milliseconds, then the outcome and the count under each heading.
pub open spec fn summary_text(tally: Tally, millis: nat) -> Seq<char> {
    summary_head(tally) + digits(millis) + summary_tail(tally)
}

/// The lines about the tiles that did not pass, or nothing where all passed.
pub open spec fn failure_text(tally: Tally) -> Seq<char> {
    if succeeded(tally) {
        Seq::empty()
    } else {
        joined(tally.failure_report, "\n"@) + "\n"@
    }
}

/// The report of a run.
pub open spec fn report_text(tally: Tally, focus_count: u64, skip_count: u64, millis: nat) -> Seq<
    char,
> {
    failure_text(tally) + stat_line(focus_count, skip_count) + summary_text(tally, millis)
}

impl RunState {
    /// Writes the report of the run.
    fn render(&self, flag_stat: &FlagStat, millis: u128, Ghost(tally): Ghost<Tally>) -> (text:
        String)
        requires
            self.stands_for(tally),
        ensures
            text@ == report_text(
                tally,
                flag_stat.focus_count,
                flag_stat.skip_count,
                millis as nat,
            ),
    {
        let mut text = String::new();
        let outcome = if self.failure_report.len() == 0 {
            "SUCCESS"
        } else {
            text.append(join(&self.failure_report, "\n").as_str());
            text.append("\n");
            "FAILURE"
        };
        proof {
            assert(Seq::new(self.failure_report@.len(), |i: int| self.failure_report@[i]@)
                =~= crate::multistringmap::texts(self.failure_report@));
            assert(text@ =~= failure_text(tally));
        }

        if flag_stat.focus_count > 0 || flag_stat.skip_count > 0 {
            text.append("Encountered ");
            if flag_stat.focus_count > 0 {
                text.append(decimal(flag_stat.focus_count as u128).as_str());
                text.append(" focused node(s)");
            }
            if flag_stat.focus_count > 0 && flag_stat.skip_count > 0 {
                text.append(" and ");
            }
            if flag_stat.skip_count > 0 {
                text.append(decimal(flag_stat.skip_count as u128).as_str());
                text.append(" pending node(s)");
            }
            text.append("\n");
        }
        assert(text@ =~= failure_text(tally) + stat_line(
            flag_stat.focus_count,
            flag_stat.skip_count,
        ));
        let ghost head = text@;

        let mut summary = String::from_str("Ran ");
        summary.append(decimal(self.tile_count as u128).as_str());
        summary.append(" tiles in ");
        summary.append(decimal(millis).as_str());
        summary.append("ms\n");
        summary.append(outcome);
        summary.append(" -- ");
        summary.append(decimal(self.tile_passed as u128).as_str());
        summary.append(" Passed | ");
        summary.append(decimal(self.tile_failed as u128).as_str());
        summary.append(" Failed | ");
        summary.append(decimal(self.tile_aborted as u128).as_str());
        summary.append(" Aborted | ");
        summary.append(decimal(self.tile_panicked as u128).as_str());
        summary.append(" Panicked");
        summary.append("\n");
        assert(summary@ =~= summary_text(tally, millis as nat));
        text.append(summary.as_str());
        text
    }
}

/// What is built for the documents of all files, file after file.
pub open spec fn all_roots(files: Seq<File>) -> Seq<Result<Slab, Blame>>
    decreases files.len(),
{
    if files.len() == 0 {
        Seq::empty()
    } else {
        all_roots(files.drop_last()) + roots_built(
            loaded(files.last().content@),
            files.last().path@,
        )
    }
}

/// The lines that reading the files gives rise to, file after file: for each
/// file, the line about a content that cannot be read, then the warnings
/// about the flags of its documents.
pub open spec fn all_notes(files: Seq<File>) -> Seq<Seq<char>>
    decreases files.len(),
{
    if files.len() == 0 {
        Seq::empty()
    } else {
        all_notes(files.drop_last()) + load_notes(files.last().path@, files.last().content@)
            + flat(root_notes(loaded(files.last().content@)))
    }
}

/// Each slab of a document with the matrix that is handed down from it: the
/// path of its file, overlaid by its entries, and so on down the tree.
pub open spec fn handed_down(roots: Seq<Slab>) -> Seq<Result<Slab, Blame>> {
    Seq::new(roots.len(), |i: int| populated(roots[i], seed_matrix(roots[i].file_path)))
}

/// The slab that holds the slabs of all documents as its children.
pub open spec fn root_slab(children: Seq<Slab>) -> Slab {
    Slab {
        node: bad_node(),
        flag: Flag::Unset,
        is_leaf: false,
        file_path: Seq::empty(),
        data_matrix: Seq::empty(),
        children,
    }
}

/// The tree of the slabs of a set of files, or the fault that ends the run:
/// the first that is met while the slabs are built, file after file, or else
/// the first that is met while the matrices are handed down, document after
/// document.
pub open spec fn forest(files: Seq<File>) -> Result<Slab, Blame> {
    let built = all_roots(files);
    let given = handed_down(successes(built));
    if first_failure(built) < built.len() {
        Err(built[first_failure(built)]->Err_0)
    } else if first_failure(given) < given.len() {
        Err(given[first_failure(given)]->Err_0)
    } else {
        Ok(root_slab(successes(given)))
    }
}

/// The first failure of two lists in a row is that of the first list, or
/// else that of the second.
proof fn lemma_first_failure_concat<T, E>(a: Seq<Result<T, E>>, b: Seq<Result<T, E>>)
    ensures
        first_failure(a + b) == if first_failure(a) < a.len() {
            first_failure(a)
        } else {
            a.len() + first_failure(b)
        },
{
    lemma_first_failure(a);
    lemma_first_failure(b);
    let at = if first_failure(a) < a.len() {
        first_failure(a)
    } else {
        a.len() + first_failure(b)
    };
    assert forall|i: int| 0 <= i < at implies (#[trigger] (a + b)[i]) is Ok by {
        if i >= a.len() {
            assert((a + b)[i] == b[i - a.len()]);
        }
    }
    if at < (a + b).len() {
        if at >= a.len() {
            assert((a + b)[at] == b[at - a.len()]);
        }
    }
    lemma_first_failure_at(a + b, at);
}

/// What is built for the first files is the start of what is built for all.
proof fn lemma_all_roots_prefix(files: Seq<File>, upto: int)
    requires
        0 <= upto <= files.len(),
    ensures
        all_roots(files.take(upto)).len() <= all_roots(files).len(),
        all_roots(files).take(all_roots(files.take(upto)).len() as int) == all_roots(
            files.take(upto),
        ),
    decreases files.len() - upto,
{
    if upto == files.len() {
        assert(files.take(upto) =~= files);
        assert(all_roots(files).take(all_roots(files).len() as int) =~= all_roots(files));
    } else {
        lemma_all_roots_prefix(files, upto + 1);
        assert(files.take(upto + 1).drop_last() =~= files.take(upto));
        let longer = all_roots(files.take(upto + 1));
        let shorter = all_roots(files.take(upto));
        assert(all_roots(files).take(shorter.len() as int) =~= shorter) by {
            assert(all_roots(files).take(longer.len() as int) == longer);
            assert forall|k: int| 0 <= k < shorter.len() implies all_roots(files)[k]
                == shorter[k] by {
                assert(all_roots(files).take(longer.len() as int)[k] == longer[k]);
            }
        }
    }
}

/// A failure among what is built for the first files is the first failure of
/// all.
proof fn lemma_all_roots_failed(files: Seq<File>, upto: int)
    requires
        0 <= upto <= files.len(),
        first_failure(all_roots(files.take(upto))) < all_roots(files.take(upto)).len(),
    ensures
        first_failure(all_roots(files)) == first_failure(all_roots(files.take(upto))),
        first_failure(all_roots(files)) < all_roots(files).len(),
        all_roots(files)[first_failure(all_roots(files))] == all_roots(files.take(upto))[first_failure(
            all_roots(files.take(upto)),
        )],
{
    lemma_all_roots_prefix(files, upto);
    let part = all_roots(files.take(upto));
    let whole = all_roots(files);
    let rest = whole.skip(part.len() as int);
    lemma_first_failure(part);
    assert(whole =~= part + rest);
    lemma_first_failure_concat(part, rest);
    assert(whole[first_failure(part)] == whole.take(part.len() as int)[first_failure(part)]);
}

/// What a file was read as: its documents, and the line that says that its
/// content could not be read, if it could not.
pub open spec fn read_as(file: File, load: (Vec<Yaml>, Vec<String>)) -> bool {
    &&& nodes(load.0@) == loaded(file.content@)
    &&& texts(load.1@) == load_notes(file.path@, file.content@)
}

/// Reads the documents of each file.
fn load_files(file_slice: &[File]) -> (loads: Vec<(Vec<Yaml>, Vec<String>)>)
    ensures
        loads@.len() == file_slice@.len(),
        forall|i: int| 0 <= i < loads@.len() ==> read_as(file_slice@[i], #[trigger] loads@[i]),
{
    let mut loads: Vec<(Vec<Yaml>, Vec<String>)> = Vec::new();
    let mut i: usize = 0;
    while i < file_slice.len()
        invariant
            i <= file_slice.len(),
            loads@.len() == i,
            forall|k: int| 0 <= k < i ==> read_as(file_slice@[k], #[trigger] loads@[k]),
        decreases file_slice.len() - i,
    {
        let mut lines: Vec<String> = Vec::new();
        let documents = Nodule::load_documents(&file_slice[i], &mut lines);
        assert(texts(lines@) =~= load_notes(file_slice@[i as int].path@, file_slice@[i as int].content@));
        loads.push((documents, lines));
        i = i + 1;
    }
    loads
}

/// Adds copies of some lines to a list of lines.
fn append_copies(list: &mut Vec<String>, lines: &Vec<String>)
    ensures
        texts(final(list)@) == texts(old(list)@) + texts(lines@),
{
    let ghost before = texts(list@);
    let mut k: usize = 0;
    assert(texts(list@) =~= before + texts(lines@).take(0));
    while k < lines.len()
        invariant
            k <= lines.len(),
            texts(list@) == before + texts(lines@).take(k as int),
        decreases lines.len() - k,
    {
        let ghost held = texts(list@);
        list.push(lines[k].clone());
        assert(texts(list@) =~= held.push(lines@[k as int]@));
        assert(texts(list@) =~= before + texts(lines@).take(k as int + 1));
        k = k + 1;
    }
    assert(texts(lines@).take(k as int) =~= texts(lines@));
}

/// Builds the slabs of the documents of all files, file after file, and adds
/// to `warnings` what reading them gives rise to. The first fault met ends
/// it.
fn build_roots<'s>(
    file_slice: &[File],
    loads: &'s Vec<(Vec<Yaml>, Vec<String>)>,
    warnings: &mut Vec<String>,
) -> (r: Result<Vec<Nodule<'s>>, SchemaError>)
    requires
        loads@.len() == file_slice@.len(),
        forall|i: int| 0 <= i < loads@.len() ==> read_as(file_slice@[i], #[trigger] loads@[i]),
    ensures
        match r {
            Ok(roots) => {
                &&& first_failure(all_roots(file_slice@)) == all_roots(file_slice@).len()
                &&& slabs(roots@) == successes(all_roots(file_slice@))
                &&& texts(final(warnings)@) == texts(old(warnings)@) + all_notes(file_slice@)
            },
            Err(e) => {
                &&& first_failure(all_roots(file_slice@)) < all_roots(file_slice@).len()
                &&& all_roots(file_slice@)[first_failure(all_roots(file_slice@))] == Err::<
                    Slab,
                    Blame,
                >(e@)
            },
        },
{
    let ghost files = file_slice@;
    let ghost before = texts(warnings@);
    let mut roots: Vec<Nodule<'s>> = Vec::new();
    let mut i: usize = 0;
    proof {
        assert(files.take(0) =~= Seq::<File>::empty());
        assert(slabs(roots@) =~= successes(all_roots(files.take(0))));
        assert(texts(warnings@) =~= before + all_notes(files.take(0)));
    }
    while i < file_slice.len()
        invariant
            i <= file_slice.len(),
            files == file_slice@,
            loads@.len() == files.len(),
            forall|k: int| 0 <= k < loads@.len() ==> read_as(files[k], #[trigger] loads@[k]),
            first_failure(all_roots(files.take(i as int))) == all_roots(files.take(i as int)).len(),
            slabs(roots@) == successes(all_roots(files.take(i as int))),
            texts(warnings@) == before + all_notes(files.take(i as int)),
        decreases file_slice.len() - i,
    {
        let file = &file_slice[i];
        let ghost done = all_roots(files.take(i as int));
        let ghost here = roots_built(loaded(file.content@), file.path@);
        let ghost held = texts(warnings@);
        proof {
            assert(files.take(i as int + 1).drop_last() =~= files.take(i as int));
            assert(files.take(i as int + 1).last() == files[i as int]);
            assert(read_as(files[i as int], loads@[i as int]));
            lemma_first_failure_concat(done, here);
        }
        append_copies(warnings, &loads[i].1);
        match Nodule::parse_documents(file.path.as_str(), &loads[i].0, warnings) {
            Ok(mut list) => {
                let ghost found = roots@;
                let ghost added = list@;
                roots.append(&mut list);
                proof {
                    assert(roots@ =~= found + added);
                    assert(slabs(roots@) =~= slabs(found) + slabs(added));
                    assert(successes(done + here) =~= successes(done) + successes(here));
                    assert(texts(warnings@) =~= before + all_notes(files.take(i as int + 1)));
                }
            },
            Err(e) => {
                proof {
                    lemma_first_failure(here);
                    assert((done + here)[done.len() + first_failure(here)] == here[first_failure(
                        here,
                    )]);
                    lemma_all_roots_failed(files, i as int + 1);
                }
                return Err(e);
            },
        }
        i = i + 1;
    }
    assert(files.take(i as int) =~= files);
    Ok(roots)
}

/// Hands to each slab of a document the matrix that it starts from, and has
/// it handed down the tree. The first fault met ends it.
fn populate_roots<'s>(roots: &mut Vec<Nodule<'s>>) -> (r: Result<(), SchemaError>)
    ensures
        match r {
            Ok(()) => {
                let given = handed_down(slabs(old(roots)@));
                &&& first_failure(given) == given.len()
                &&& slabs(final(roots)@) == successes(given)
            },
            Err(e) => {
                let given = handed_down(slabs(old(roots)@));
                &&& first_failure(given) < given.len()
                &&& given[first_failure(given)] == Err::<Slab, Blame>(e@)
            },
        },
{
    let ghost given = handed_down(slabs(old(roots)@));
    let mut j: usize = 0;
    while j < roots.len()
        invariant
            j <= roots.len(),
            roots@.len() == old(roots)@.len(),
            given == handed_down(slabs(old(roots)@)),
            forall|k: int| 0 <= k < j ==> #[trigger] given[k] == Ok::<Slab, Blame>(roots@[k]@),
            forall|k: int| j <= k < roots@.len() ==> (#[trigger] roots@[k])@ == old(roots)@[k]@,
        decreases roots.len() - j,
    {
        let mut data_matrix = MultiStringMap::new();
        let mut paths: Vec<String> = Vec::new();
        paths.push(roots[j].file_path.clone());
        data_matrix.insert("filepath".to_owned(), paths);
        proof {
            assert(texts(paths@) =~= seq![roots@[j as int].file_path@]);
            assert(data_matrix@ =~= seed_matrix(roots@[j as int]@.file_path));
        }
        let ghost held = roots@;
        match roots[j].populate(&data_matrix) {
            Ok(()) => {},
            Err(e) => {
                proof {
                    lemma_first_failure_at(given, j as int);
                }
                return Err(e);
            },
        }
        proof {
            assert(roots@ =~= held.update(j as int, roots@[j as int]));
        }
        j = j + 1;
    }
    proof {
        lemma_first_failure_at(given, given.len() as int);
        assert(slabs(roots@) =~= successes(given));
    }
    Ok(())
}

#[verifier::external_type_specification]
#[verifier::external_body]
pub struct ExSystemTime(std::time::SystemTime);

/// `std::time::SystemTime::now`. The clock is read; nothing is claimed of what
/// it says.
#[verifier::external_body]
fn clock_now() -> (now: std::time::SystemTime) {
    std::time::SystemTime::now()
}

/// `std::time::SystemTime::duration_since`, with the error left out: the time
/// from `earlier` to `later`, or nothing where the clock went backwards.
/// Nothing is claimed of the result.
#[verifier::external_body]
fn time_between(later: &std::time::SystemTime, earlier: &std::time::SystemTime) -> (elapsed:
    Option<std::time::Duration>) {
    later.duration_since(*earlier).ok()
}

/// `std::time::Duration::as_millis`. Nothing is claimed of the result.
#[verifier::external_body]
fn whole_millis(elapsed: &std::time::Duration) -> (millis: u128) {
    elapsed.as_millis()
}

/// Why a run came to nothing.
#[derive(Debug)]
pub enum RunError {
    /// A document has a fault in its shape.
    Schema(SchemaError),
    /// The sink did not take what was written to it.
    Sink(std::io::Error),
}

/// Lines as one text, each line ended.
pub open spec fn lines_text(lines: Seq<Seq<char>>) -> Seq<char>
    decreases lines.len(),
{
    if lines.len() == 0 {
        Seq::empty()
    } else {
        lines_text(lines.drop_last()) + lines.last() + "\n"@
    }
}

/// Where the node of a slab was read.
pub open spec fn location_of(slab: Slab) -> Seq<char> {
    location_text(slab.file_path, slab.node.position)
}

/// The count after the tiles of the given leaves, leaf after leaf, where
/// `outcomes` holds for each leaf what became of its tiles.
pub open spec fn run_tally(leaves: Seq<Slab>, outcomes: Seq<Seq<Outcome>>) -> Tally
    decreases leaves.len(),
{
    if leaves.len() == 0 {
        empty_tally()
    } else {
        leaf_tally(
            run_tally(leaves.drop_last(), outcomes.drop_last()),
            location_of(leaves.last()),
            outcomes.last(),
        )
    }
}

/// Every tile of every leaf has an outcome: each leaf has as many as the
/// product of its matrix has points.
pub open spec fn complete(leaves: Seq<Slab>, outcomes: Seq<Seq<Outcome>>) -> bool {
    &&& outcomes.len() == leaves.len()
    &&& forall|i: int|
        0 <= i < leaves.len() ==> (#[trigger] outcomes[i]).len() == product_size(
            leaves[i].data_matrix,
        )
}

/// The outcome of tile `n` of a matrix is what an answer of the test box to
/// that tile makes of it.
pub open spec fn answers_tile<F: FnMut(&Dict) -> Result<(), String>>(
    test_box: F,
    matrix: Seq<Entry>,
    n: nat,
    outcome: Outcome,
) -> bool {
    exists|dict: Dict, answer: Result<(), String>|
        #[trigger] call_ensures(test_box, (&dict,), answer) && dict@ == tile(matrix, n) && outcome
            == outcome_of(answer_text(answer))
}

/// The outcomes of a leaf are, in order, what the test box answered to the
/// tiles of the leaf.
pub open spec fn leaf_answered<F: FnMut(&Dict) -> Result<(), String>>(
    test_box: F,
    matrix: Seq<Entry>,
    outcomes: Seq<Outcome>,
) -> bool {
    forall|n: int|
        0 <= n < outcomes.len() ==> answers_tile(test_box, matrix, n as nat, #[trigger] outcomes[n])
}

/// The outcomes of a run are, leaf after leaf, what the test box answered to
/// the tiles of the leaves.
pub open spec fn answered<F: FnMut(&Dict) -> Result<(), String>>(
    test_box: F,
    leaves: Seq<Slab>,
    outcomes: Seq<Seq<Outcome>>,
) -> bool {
    forall|i: int|
        0 <= i < leaves.len() && i < outcomes.len() ==> leaf_answered(
            test_box,
            leaves[i].data_matrix,
            #[trigger] outcomes[i],
        )
}

/// What a run writes to a buffer: the lines that reading the files gives rise
/// to, the warnings about focused slabs that were passed over, and the
/// report.
pub open spec fn run_output(
    files: Seq<File>,
    root: Slab,
    outcomes: Seq<Seq<Outcome>>,
    millis: nat,
) -> Seq<u8> {
    let found = survey::<Slab>(root);
    encode_utf8(lines_text(all_notes(files))) + slab_notices(found.warned) + encode_utf8(
        report_text(
            run_tally(selected_leaves::<Slab>(root), outcomes),
            capped(found.focus_count as int),
            capped(found.skip_count as int),
            millis,
        ),
    )
}

/// Whatever is reached in a tree whose matrices are all well-formed has a
/// well-formed matrix.
proof fn lemma_reached_sound(t: Slab, x: Slab)
    requires
        sound(t),
        reached_unskipped::<Slab>(t, x),
    ensures
        sound(x),
    decreases slab_size(t),
{
    if x != t {
        let i = choose|i: int|
            0 <= i < t.children.len() && slab_size(#[trigger] t.children[i]) < slab_size(t)
                && reached_unskipped::<Slab>(t.children[i], x);
        lemma_reached_sound(t.children[i], x);
    }
}

/// The tree that a set of files stands for has well-formed matrices
/// throughout.
proof fn lemma_forest_sound(files: Seq<File>)
    requires
        forest(files) is Ok,
    ensures
        sound(forest(files)->Ok_0),
{
    let built = all_roots(files);
    let given = handed_down(successes(built));
    let root = forest(files)->Ok_0;
    lemma_first_failure(given);
    assert forall|i: int| 0 <= i < root.children.len() implies sound(#[trigger] root.children[i]) by {
        let slab = successes(built)[i];
        assert(given[i] is Ok);
        let seed = seed_matrix(slab.file_path);
        assert(seed[0].1.len() > 0);
        law_matrix_inheritance(slab, seed);
    }
}

/// Runs the tiles of one leaf through the test box, in the order of the
/// product of its matrix, and counts what comes of them.
fn run_leaf<F: FnMut(&Dict) -> Result<(), String>>(
    test_box: &mut F,
    slab: &Nodule,
    state: &mut RunState,
    Ghost(tally): Ghost<Tally>,
) -> (outcomes: Ghost<Seq<Outcome>>)
    requires
        forall|tile: &Dict| call_requires(*old(test_box), (tile,)),
        slab.data_matrix.wf(),
        old(state).stands_for(tally),
    ensures
        forall|tile: &Dict| call_requires(*final(test_box), (tile,)),
        *final(test_box) == *old(test_box),
        outcomes@.len() == product_size(slab@.data_matrix),
        leaf_answered(*old(test_box), slab@.data_matrix, outcomes@),
        final(state).stands_for(leaf_tally(tally, location_of(slab@), outcomes@)),
{
    let slab_location = slab.get_location();

    let mut index: u64 = 0;
    let mut iterator = slab.data_matrix.clone().into_product_iterator();
    let ghost mut outcomes: Seq<Outcome> = Seq::empty();
    let ghost size = product_size(slab@.data_matrix);
    loop
        invariant_except_break
            iterator.emitted() == outcomes.len(),
        invariant
            forall|tile: &Dict| call_requires(*test_box, (tile,)),
            *test_box == *old(test_box),
            leaf_answered(*old(test_box), slab@.data_matrix, outcomes),
            iterator.wf(),
            iterator.matrix() == slab@.data_matrix,
            size == product_size(slab@.data_matrix),
            outcomes.len() <= size,
            index == capped(outcomes.len() as int),
            slab_location@ == location_of(slab@),
            state.stands_for(leaf_tally(tally, location_of(slab@), outcomes)),
        ensures
            outcomes.len() == size,
        decreases size - outcomes.len(),
    {
        match iterator.next() {
            Some(tile) => {
                // Pass the slab data to the testbox
                let answer = test_box(tile);
                let ghost before = outcomes;
                proof {
                    outcomes = outcomes.push(outcome_of(answer_text(answer)));
                    assert(outcomes.drop_last() =~= before);
                    assert(call_ensures(*old(test_box), (tile,), answer));
                    assert(answers_tile(
                        *old(test_box),
                        slab@.data_matrix,
                        before.len(),
                        outcomes[before.len() as int],
                    ));
                    assert forall|n: int| 0 <= n < outcomes.len() implies answers_tile(
                        *old(test_box),
                        slab@.data_matrix,
                        n as nat,
                        #[trigger] outcomes[n],
                    ) by {
                        if n < before.len() {
                            assert(outcomes[n] == before[n]);
                        }
                    }
                }
                state.record(
                    answer,
                    slab_location.as_str(),
                    index,
                    Ghost(leaf_tally(tally, location_of(slab@), before)),
                );
                index = bump(index);
            },
            None => {
                break ;
            },
        }
    }
    Ghost(outcomes)
}

/// Puts lines into one text, each line ended.
fn lines_as_text(lines: &Vec<String>) -> (text: String)
    ensures
        text@ == lines_text(texts(lines@)),
{
    let mut text = String::new();
    let mut i: usize = 0;
    assert(texts(lines@).take(0) =~= Seq::<Seq<char>>::empty());
    while i < lines.len()
        invariant
            i <= lines.len(),
            text@ == lines_text(texts(lines@).take(i as int)),
        decreases lines.len() - i,
    {
        text.append(lines[i].as_str());
        text.append("\n");
        proof {
            let prefix = texts(lines@).take(i as int + 1);
            assert(prefix.drop_last() =~= texts(lines@).take(i as int));
            assert(prefix.last() == lines@[i as int]@);
        }
        i = i + 1;
    }
    assert(texts(lines@).take(i as int) =~= texts(lines@));
    text
}

/// What a run that came to its end did: every tile of every selected leaf has
/// an outcome, and the sink has taken the output of the run.
pub open spec fn ran(
    files: Seq<File>,
    root: Slab,
    outcomes: Seq<Seq<Outcome>>,
    millis: nat,
    before: Writable,
    after: Writable,
) -> bool {
    &&& complete(selected_leaves::<Slab>(root), outcomes)
    &&& after.follows(before, run_output(files, root, outcomes, millis))
}

/// Whether a run with the given outcomes passed: no tile failed.
pub open spec fn passes(root: Slab, outcomes: Seq<Seq<Outcome>>) -> bool {
    succeeded(run_tally(selected_leaves::<Slab>(root), outcomes))
}

/// Runs the tiles of a set of specification files through a test box and
/// writes the report to the sink.
///
/// The files are read and their slabs built; a fault in the shape of a
/// document ends the run before anything is written. The leaves are then
/// selected, and the test box is handed each tile of each selected leaf, leaf
/// after leaf and in the order of the product of the leaf's matrix. Whatever
/// the test box answers, the next tile follows. The result says whether every
/// tile passed. Only the standard output can fail to take what is written.
pub fn ioless_run<F: FnMut(&Dict) -> Result<(), String>>(
    test_box: &mut F,
    file_slice: &[File],
    stdout: &mut Writable,
) -> (r: Result<bool, RunError>)
    requires
        forall|tile: &Dict| call_requires(*old(test_box), (tile,)),
    ensures
        r matches Err(RunError::Schema(e)) ==> forest(file_slice@) == Err::<Slab, Blame>(e@),
        r matches Err(RunError::Schema(_)) ==> *final(stdout) == *old(stdout),
        r matches Err(RunError::Sink(_)) ==> forest(file_slice@) is Ok && *old(stdout) is Out,
        r is Ok ==> forest(file_slice@) is Ok && exists|
            outcomes: Seq<Seq<Outcome>>,
            millis: nat,
        |
            #[trigger] ran(
                file_slice@,
                forest(file_slice@)->Ok_0,
                outcomes,
                millis,
                *old(stdout),
                *final(stdout),
            ) && r->Ok_0 == passes(forest(file_slice@)->Ok_0, outcomes) && answered(
                *old(test_box),
                selected_leaves::<Slab>(forest(file_slice@)->Ok_0),
                outcomes,
            ),
{
    // Parse the data into a Root, which contains Nodule-s
    let ghost files = file_slice@;
    let document_store = load_files(file_slice);
    let mut warnings: Vec<String> = Vec::new();
    let mut root_nodule_vec = match build_roots(file_slice, &document_store, &mut warnings) {
        Ok(roots) => roots,
        Err(e) => {
            return Err(RunError::Schema(e));
        },
    };
    assert(texts(warnings@) =~= all_notes(files));
    match populate_roots(&mut root_nodule_vec) {
        Ok(()) => {},
        Err(e) => {
            return Err(RunError::Schema(e));
        },
    }
    let bad_value = Yaml::bad_value();
    let root = Nodule {
        node: &bad_value,
        flag: Flag::Unset,
        is_leaf: false,
        file_path: String::new(),
        data_matrix: MultiStringMap::new(),
        children: root_nodule_vec,
    };
    let ghost tree = forest(files)->Ok_0;
    let ghost found = survey::<Slab>(tree);
    let ghost chosen = selected_leaves::<Slab>(tree);
    proof {
        lemma_children_view(root);
        assert(root@ == tree);
        lemma_forest_sound(files);
        lemma_survey_view(root);
        lemma_selected_view(root);
        lemma_notices_view(survey::<Nodule>(root).warned);
        assert forall|k: int| 0 <= k < chosen.len() implies sound(#[trigger] chosen[k]) by {
            law_skip_pruning::<Slab>(tree, k);
            lemma_reached_sound(tree, chosen[k]);
        }
    }

    let notes = lines_as_text(&warnings);
    match stdout.write_text(notes.as_str()) {
        Ok(()) => {},
        Err(e) => {
            return Err(RunError::Sink(e));
        },
    }
    let ghost after_notes = *stdout;

    // Retrieving focused nodes, if any. This is done using a suffix
    // tree-traversal: The presence of the FOCUS flag on a node is checked
    // after all its children have been checked. If a node which has FOCUS-ed
    // children is FOCUS-ed itself, then its FOCUS flag is ignored and a
    // warning is issued.
    let mut selected: Vec<Nodule> = Vec::new();
    let mut flag_stat = FlagStat::default();
    match extract_focused_leaf_values(&root, &mut selected, &mut flag_stat, stdout) {
        Ok(()) => {},
        Err(e) => {
            return Err(RunError::Sink(e));
        },
    }
    let ghost after_selection = *stdout;
    proof {
        assert(slabs(selected@) =~= chosen);
        lemma_follows_twice(
            *old(stdout),
            after_notes,
            after_selection,
            encode_utf8(lines_text(all_notes(files))),
            slab_notices(found.warned),
        );
    }

    let start_time = clock_now();

    // Run all the selected leaves
    let mut s = RunState::new();
    let ghost mut outcomes: Seq<Seq<Outcome>> = Seq::empty();
    let mut i: usize = 0;
    assert(chosen.take(0) =~= Seq::<Slab>::empty());
    while i < selected.len()
        invariant
            i <= selected.len(),
            forall|tile: &Dict| call_requires(*test_box, (tile,)),
            *test_box == *old(test_box),
            answered(*old(test_box), chosen.take(i as int), outcomes),
            slabs(selected@) == chosen,
            forall|k: int| 0 <= k < chosen.len() ==> sound(#[trigger] chosen[k]),
            outcomes.len() == i,
            complete(chosen.take(i as int), outcomes),
            s.stands_for(run_tally(chosen.take(i as int), outcomes)),
        decreases selected.len() - i,
    {
        let ghost before = outcomes;
        let ghost tally = run_tally(chosen.take(i as int), before);
        proof {
            assert(slabs(selected@)[i as int] == selected@[i as int]@);
            assert(sound(chosen[i as int]));
        }
        let got = run_leaf(test_box, &selected[i], &mut s, Ghost(tally));
        proof {
            outcomes = before.push(got@);
            assert(chosen.take(i as int + 1).drop_last() =~= chosen.take(i as int));
            assert(outcomes.drop_last() =~= before);
            assert(chosen.take(i as int + 1).last() == chosen[i as int]);
            assert forall|k: int|
                0 <= k < chosen.take(i as int + 1).len() && k < outcomes.len() implies leaf_answered(
                *old(test_box),
                chosen.take(i as int + 1)[k].data_matrix,
                #[trigger] outcomes[k],
            ) by {
                if k < i {
                    assert(outcomes[k] == before[k]);
                    assert(chosen.take(i as int)[k] == chosen.take(i as int + 1)[k]);
                }
            }
        }
        i = i + 1;
    }
    assert(chosen.take(i as int) =~= chosen);

    let duration: u128 = match time_between(&clock_now(), &start_time) {
        Some(elapsed) => whole_millis(&elapsed),
        None => 0,
    };

    let ghost tally = run_tally(chosen, outcomes);
    let report = s.render(&flag_stat, duration, Ghost(tally));
    match stdout.write_text(report.as_str()) {
        Ok(()) => {},
        Err(e) => {
            return Err(RunError::Sink(e));
        },
    }
    let passed = s.failure_report.len() == 0;
    proof {
        lemma_follows_twice(
            *old(stdout),
            after_selection,
            *stdout,
            encode_utf8(lines_text(all_notes(files))) + slab_notices(found.warned),
            encode_utf8(report@),
        );
        assert(ran(
            file_slice@,
            forest(file_slice@)->Ok_0,
            outcomes,
            duration as nat,
            *old(stdout),
            *stdout,
        ));
        assert(passed == passes(forest(file_slice@)->Ok_0, outcomes));
        assert(answered(
            *old(test_box),
            selected_leaves::<Slab>(forest(file_slice@)->Ok_0),
            outcomes,
        ));
    }
    Ok(passed)
}

/// The number of tiles of a list of leaves.
pub open spec fn tile_total(leaves: Seq<Slab>) -> nat
    decreases leaves.len(),
{
    if leaves.len() == 0 {
        0
    } else {
        tile_total(leaves.drop_last()) + product_size(leaves.last().data_matrix)
    }
}

proof fn lemma_leaf_tally_counts(tally: Tally, location: Seq<char>, outcomes: Seq<Outcome>)
    requires
        tally.tile_passed + tally.tile_failed + tally.tile_aborted + tally.tile_panicked
            == tally.tile_count,
    ensures
        ({
            let after = leaf_tally(tally, location, outcomes);
            &&& after.tile_count == tally.tile_count + outcomes.len()
            &&& after.tile_passed + after.tile_failed + after.tile_aborted + after.tile_panicked
                == after.tile_count
        }),
    decreases outcomes.len(),
{
    if outcomes.len() > 0 {
        lemma_leaf_tally_counts(tally, location, outcomes.drop_last());
    }
}

/// Abort isolation: whatever became of the tiles, aborted or not, every tile
/// of every leaf is counted once, and once more under what became of it.
pub proof fn law_every_tile_counted(leaves: Seq<Slab>, outcomes: Seq<Seq<Outcome>>)
    requires
        complete(leaves, outcomes),
    ensures
        run_tally(leaves, outcomes).tile_count == tile_total(leaves),
        run_tally(leaves, outcomes).tile_passed + run_tally(leaves, outcomes).tile_failed
            + run_tally(leaves, outcomes).tile_aborted + run_tally(leaves, outcomes).tile_panicked
            == run_tally(leaves, outcomes).tile_count,
    decreases leaves.len(),
{
    if leaves.len() > 0 {
        assert(complete(leaves.drop_last(), outcomes.drop_last())) by {
            assert forall|i: int| 0 <= i < leaves.drop_last().len() implies (
            #[trigger] outcomes.drop_last()[i]).len() == product_size(
                leaves.drop_last()[i].data_matrix,
            ) by {
                assert(outcomes.drop_last()[i] == outcomes[i]);
            }
        }
        law_every_tile_counted(leaves.drop_last(), outcomes.drop_last());
        assert(outcomes.last() == outcomes[leaves.len() - 1]);
        lemma_leaf_tally_counts(
            run_tally(leaves.drop_last(), outcomes.drop_last()),
            location_of(leaves.last()),
            outcomes.last(),
        );
    }
}

/// What a run writes to a buffer before the time that it took.
pub open spec fn output_before_time(files: Seq<File>, root: Slab, outcomes: Seq<Seq<Outcome>>) -> Seq<
    u8,
> {
    let found = survey::<Slab>(root);
    let tally = run_tally(selected_leaves::<Slab>(root), outcomes);
    encode_utf8(lines_text(all_notes(files))) + slab_notices(found.warned) + encode_utf8(
        failure_text(tally) + stat_line(
            capped(found.focus_count as int),
            capped(found.skip_count as int),
        ) + summary_head(tally),
    )
}

/// What a run writes to a buffer after the time that it took.
pub open spec fn output_after_time(root: Slab, outcomes: Seq<Seq<Outcome>>) -> Seq<u8> {
    encode_utf8(summary_tail(run_tally(selected_leaves::<Slab>(root), outcomes)))
}

/// Determinism: what a run writes is decided by the files and by what became
/// of the tiles, but for the digits of the time that the run took. Two runs
/// over the same files in which the test box gives the same answers write
/// the same bytes before those digits and the same bytes after them.
pub proof fn law_output_but_for_time(
    files: Seq<File>,
    root: Slab,
    outcomes: Seq<Seq<Outcome>>,
    millis: nat,
)
    ensures
        run_output(files, root, outcomes, millis) == output_before_time(files, root, outcomes)
            + encode_utf8(digits(millis)) + output_after_time(root, outcomes),
{
    let found = survey::<Slab>(root);
    let tally = run_tally(selected_leaves::<Slab>(root), outcomes);
    let head = failure_text(tally) + stat_line(
        capped(found.focus_count as int),
        capped(found.skip_count as int),
    ) + summary_head(tally);
    let report = report_text(
        tally,
        capped(found.focus_count as int),
        capped(found.skip_count as int),
        millis,
    );
    assert(report =~= head + digits(millis) + summary_tail(tally));
    lemma_utf8_concat(head + digits(millis), summary_tail(tally));
    lemma_utf8_concat(head, digits(millis));
    assert(run_output(files, root, outcomes, millis) =~= output_before_time(files, root, outcomes)
        + encode_utf8(digits(millis)) + output_after_time(root, outcomes));
}

} // verus!
