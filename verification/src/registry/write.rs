//! Writing an artefact once.
//!
//! Each writer is a plan: it says which step to take next, and is told how the step went. Whoever
//! runs it touches the filesystem; the plan decides what follows.

use vstd::prelude::*;

use crate::registry::{
    join_path, map_file, map_path, path_under, require_dir, table_file, table_path, RegistryError,
};
use crate::text::{decimal, push_decimal};

verus! {

/// How a step went. `exists` tells a name that is taken from every other reason.
#[derive(Debug, Clone, PartialEq, Eq)]
pub enum Outcome {
    Done,
    Failed { exists: bool, cause: String },
}

/// How writing a mapping is going to end, as far as is known.
#[derive(Debug, Clone, PartialEq, Eq)]
pub enum Verdict {
    Written,
    NoDirectory(String),
    NotOpened(String),
    NotWritten(String),
    NotFlushed(String),
    AlreadyThere,
    NotLinked(String),
}

/// What to do next to write a mapping.
#[derive(Debug, Clone, Copy, PartialEq, Eq, Structural)]
pub enum MapStep {
    /// Create the directory, with its parents, unless it is there.
    CreateDirectory,
    /// Create the temporary file, which must not exist.
    OpenTemporary,
    /// Write all the bytes to it.
    WriteTemporary,
    /// Flush it to disk.
    FlushTemporary,
    /// Link the final name to it. This fails where the name is taken; a rename would not.
    Link,
    /// Remove the temporary name. How that goes does not matter.
    RemoveTemporary,
    Finished,
}

/// The step and verdict that follow a step of writing a mapping.
pub open spec fn after(step: MapStep, verdict: Verdict, outcome: Outcome) -> (MapStep, Verdict) {
    match (step, outcome) {
        (MapStep::CreateDirectory, Outcome::Done) => (MapStep::OpenTemporary, verdict),
        (MapStep::CreateDirectory, Outcome::Failed { exists, cause }) => (
            MapStep::Finished,
            Verdict::NoDirectory(cause),
        ),
        (MapStep::OpenTemporary, Outcome::Done) => (MapStep::WriteTemporary, verdict),
        (MapStep::OpenTemporary, Outcome::Failed { exists, cause }) => (
            MapStep::RemoveTemporary,
            Verdict::NotOpened(cause),
        ),
        (MapStep::WriteTemporary, Outcome::Done) => (MapStep::FlushTemporary, verdict),
        (MapStep::WriteTemporary, Outcome::Failed { exists, cause }) => (
            MapStep::RemoveTemporary,
            Verdict::NotWritten(cause),
        ),
        (MapStep::FlushTemporary, Outcome::Done) => (MapStep::Link, verdict),
        (MapStep::FlushTemporary, Outcome::Failed { exists, cause }) => (
            MapStep::RemoveTemporary,
            Verdict::NotFlushed(cause),
        ),
        (MapStep::Link, Outcome::Done) => (MapStep::RemoveTemporary, verdict),
        (MapStep::Link, Outcome::Failed { exists, cause }) => (
            MapStep::RemoveTemporary,
            if exists {
                Verdict::AlreadyThere
            } else {
                Verdict::NotLinked(cause)
            },
        ),
        (MapStep::RemoveTemporary, _) => (MapStep::Finished, verdict),
        (MapStep::Finished, _) => (MapStep::Finished, verdict),
    }
}

/// Writing a mapping to its file. The create is atomic **with its content**: the bytes go to a
/// temporary file in the same directory, are flushed, and only then get linked to the final name.
#[derive(Debug, Clone, PartialEq, Eq)]
pub struct MapWrite {
    pub vocabulary_id: u16,
    pub dir: String,
    /// The final name.
    pub path: String,
    /// The temporary name.
    pub temporary: String,
    pub step: MapStep,
    pub verdict: Verdict,
}

/// The temporary file of a mapping. Dotted and suffixed so it can never be mistaken for an
/// artefact, and stamped with the process and a clock reading so that one left behind by a crash
/// cannot collide with it.
pub open spec fn temporary_file(id: u16, pid: u32, stamp: u128) -> Seq<char> {
    "."@ + decimal(id as nat) + ".tnmap."@ + decimal(pid as nat) + "."@ + decimal(stamp as nat)
        + ".tmp"@
}

impl MapWrite {
    /// Begin to write a vocabulary's mapping.
    pub fn begin(dir: &str, vocabulary_id: u16, pid: u32, stamp: u128) -> (r: Result<
        Self,
        RegistryError,
    >)
        ensures
            match r {
                Ok(w) => {
                    &&& dir@.len() > 0
                    &&& w.vocabulary_id == vocabulary_id
                    &&& w.dir@ == dir@
                    &&& w.path@ == path_under(dir@, map_file(vocabulary_id))
                    &&& w.temporary@ == path_under(dir@, temporary_file(vocabulary_id, pid, stamp))
                    &&& w.step == MapStep::CreateDirectory
                    &&& w.verdict == Verdict::Written
                },
                Err(e) => dir@.len() == 0 && (e matches RegistryError::NoDirectory(p) && p@
                    == "write a vocabulary mapping"@),
            },
    {
        match require_dir(dir, "write a vocabulary mapping") {
            Ok(()) => {},
            Err(e) => {
                return Err(e);
            },
        }
        let mut file = ".".to_owned();
        push_decimal(&mut file, vocabulary_id as u128);
        file.append(".tnmap.");
        push_decimal(&mut file, pid as u128);
        file.append(".");
        push_decimal(&mut file, stamp);
        file.append(".tmp");
        Ok(
            MapWrite {
                vocabulary_id,
                dir: dir.to_owned(),
                path: map_path(dir, vocabulary_id),
                temporary: join_path(dir, file.as_str()),
                step: MapStep::CreateDirectory,
                verdict: Verdict::Written,
            },
        )
    }

    /// Take note of how the step went, and go on to the next.
    pub fn advance(self, outcome: Outcome) -> (next: Self)
        ensures
            (next.step, next.verdict) == after(self.step, self.verdict, outcome),
            next.vocabulary_id == self.vocabulary_id,
            next.dir == self.dir,
            next.path == self.path,
            next.temporary == self.temporary,
    {
        let step = self.step;
        let (step, verdict) = match outcome {
            Outcome::Done => match step {
                MapStep::CreateDirectory => (MapStep::OpenTemporary, self.verdict),
                MapStep::OpenTemporary => (MapStep::WriteTemporary, self.verdict),
                MapStep::WriteTemporary => (MapStep::FlushTemporary, self.verdict),
                MapStep::FlushTemporary => (MapStep::Link, self.verdict),
                MapStep::Link => (MapStep::RemoveTemporary, self.verdict),
                MapStep::RemoveTemporary => (MapStep::Finished, self.verdict),
                MapStep::Finished => (MapStep::Finished, self.verdict),
            },
            Outcome::Failed { exists, cause } => match step {
                MapStep::CreateDirectory => (MapStep::Finished, Verdict::NoDirectory(cause)),
                MapStep::OpenTemporary => (MapStep::RemoveTemporary, Verdict::NotOpened(cause)),
                MapStep::WriteTemporary => (MapStep::RemoveTemporary, Verdict::NotWritten(cause)),
                MapStep::FlushTemporary => (MapStep::RemoveTemporary, Verdict::NotFlushed(cause)),
                // Only a taken name means "pick a different id". Reporting every failure as a
                // collision would send an operator chasing the one fix that cannot help.
                MapStep::Link => if exists {
                    (MapStep::RemoveTemporary, Verdict::AlreadyThere)
                } else {
                    (MapStep::RemoveTemporary, Verdict::NotLinked(cause))
                },
                MapStep::RemoveTemporary => (MapStep::Finished, self.verdict),
                MapStep::Finished => (MapStep::Finished, self.verdict),
            },
        };
        MapWrite {
            vocabulary_id: self.vocabulary_id,
            dir: self.dir,
            path: self.path,
            temporary: self.temporary,
            step,
            verdict,
        }
    }

    /// How it ended: the path that was written, or why none was.
    pub fn result(self) -> (r: Result<String, RegistryError>)
        ensures
            match (self.verdict, r) {
                (Verdict::Written, Ok(path)) => path == self.path,
                (Verdict::NoDirectory(c), Err(e)) => e == (RegistryError::CannotCreateDirectory {
                    path: self.dir,
                    cause: c,
                }),
                (Verdict::NotOpened(c), Err(e)) => e == (RegistryError::CannotStage {
                    path: self.temporary,
                    cause: c,
                }),
                (Verdict::NotWritten(c), Err(e)) => e == (RegistryError::CannotWrite {
                    path: self.temporary,
                    cause: c,
                }),
                (Verdict::NotFlushed(c), Err(e)) => e == (RegistryError::CannotFlush {
                    path: self.temporary,
                    cause: c,
                }),
                (Verdict::AlreadyThere, Err(e)) => e == (RegistryError::MappingExists {
                    id: self.vocabulary_id,
                    path: self.path,
                }),
                (Verdict::NotLinked(c), Err(e)) => e == (RegistryError::CannotCreateMapping {
                    path: self.path,
                    cause: c,
                }),
                _ => false,
            },
    {
        match self.verdict {
            Verdict::Written => Ok(self.path),
            Verdict::NoDirectory(cause) => Err(
                RegistryError::CannotCreateDirectory { path: self.dir, cause },
            ),
            Verdict::NotOpened(cause) => Err(
                RegistryError::CannotStage { path: self.temporary, cause },
            ),
            Verdict::NotWritten(cause) => Err(
                RegistryError::CannotWrite { path: self.temporary, cause },
            ),
            Verdict::NotFlushed(cause) => Err(
                RegistryError::CannotFlush { path: self.temporary, cause },
            ),
            Verdict::AlreadyThere => Err(
                RegistryError::MappingExists { id: self.vocabulary_id, path: self.path },
            ),
            Verdict::NotLinked(cause) => Err(
                RegistryError::CannotCreateMapping { path: self.path, cause },
            ),
        }
    }
}

/// Where writing a mapping stands once its steps have gone like this.
pub open spec fn run(outcomes: Seq<Outcome>) -> (MapStep, Verdict)
    decreases outcomes.len(),
{
    if outcomes.len() == 0 {
        (MapStep::CreateDirectory, Verdict::Written)
    } else {
        let (step, verdict) = run(outcomes.drop_last());
        after(step, verdict, outcomes.last())
    }
}

/// A mapping never appears under its final name while short: the link is made only when the bytes
/// have been written to the temporary file and flushed.
pub proof fn lemma_linked_only_when_flushed(outcomes: Seq<Outcome>)
    requires
        run(outcomes).0 == MapStep::Link,
    ensures
        outcomes.len() == 4,
        forall|i: int| 0 <= i < 4 ==> #[trigger] outcomes[i] == Outcome::Done,
{
    reveal_with_fuel(run, 5);
    let a = outcomes.drop_last();
    let b = a.drop_last();
    let c = b.drop_last();
    assert(run(a).0 == MapStep::FlushTemporary);
    assert(run(b).0 == MapStep::WriteTemporary);
    assert(run(c).0 == MapStep::OpenTemporary);
    assert(run(c.drop_last()).0 == MapStep::CreateDirectory);
    lemma_directory_comes_first(c.drop_last());
}

proof fn lemma_directory_comes_first(outcomes: Seq<Outcome>)
    requires
        run(outcomes).0 == MapStep::CreateDirectory,
    ensures
        outcomes.len() == 0,
{
}

/// The temporary file is removed on every path: once the directory is there, writing ends only
/// after the step that removes it, whatever went wrong in between.
pub proof fn lemma_temporary_is_removed(outcomes: Seq<Outcome>)
    requires
        outcomes.len() > 0,
        outcomes[0] == Outcome::Done,
        run(outcomes).0 == MapStep::Finished,
    ensures
        exists|n: int|
            0 < n < outcomes.len() && run(#[trigger] outcomes.take(n)).0
                == MapStep::RemoveTemporary,
    decreases outcomes.len(),
{
    let front = outcomes.drop_last();
    if front.len() == 0 {
        assert(run(front) == (MapStep::CreateDirectory, Verdict::Written));
    } else if run(front).0 == MapStep::Finished {
        lemma_temporary_is_removed(front);
        let n = choose|n: int|
            0 < n < front.len() && run(#[trigger] front.take(n)).0 == MapStep::RemoveTemporary;
        assert(outcomes.take(n) =~= front.take(n));
    } else {
        if run(front).0 == MapStep::CreateDirectory {
            lemma_directory_comes_first(front);
        }
        assert(outcomes.take(outcomes.len() - 1) =~= front);
    }
}

/// Whether every step up to the link, or as far as it got, went well.
spec fn well_so_far(outcomes: Seq<Outcome>) -> bool {
    forall|i: int| 0 <= i < outcomes.len() && i < 5 ==> #[trigger] outcomes[i] == Outcome::Done
}

proof fn lemma_progress(outcomes: Seq<Outcome>)
    ensures
        ({
            let (step, verdict) = run(outcomes);
            let n = outcomes.len();
            if well_so_far(outcomes) {
                &&& verdict == Verdict::Written
                &&& n == 0 ==> step == MapStep::CreateDirectory
                &&& n == 1 ==> step == MapStep::OpenTemporary
                &&& n == 2 ==> step == MapStep::WriteTemporary
                &&& n == 3 ==> step == MapStep::FlushTemporary
                &&& n == 4 ==> step == MapStep::Link
                &&& n == 5 ==> step == MapStep::RemoveTemporary
                &&& n > 5 ==> step == MapStep::Finished
            } else {
                &&& verdict != Verdict::Written
                &&& step == MapStep::RemoveTemporary || step == MapStep::Finished
            }
        }),
    decreases outcomes.len(),
{
    if outcomes.len() > 0 {
        let front = outcomes.drop_last();
        lemma_progress(front);
        assert(forall|i: int| 0 <= i < front.len() ==> #[trigger] front[i] == outcomes[i]);
        assert(outcomes.last() == outcomes[outcomes.len() - 1]);
        if well_so_far(outcomes) {
            assert(well_so_far(front));
        } else if well_so_far(front) {
            let i = choose|i: int|
                0 <= i < outcomes.len() && i < 5 && #[trigger] outcomes[i] != Outcome::Done;
            if i < front.len() {
                assert(front[i] == outcomes[i]);
            }
        } else {
            let i = choose|i: int|
                0 <= i < front.len() && i < 5 && #[trigger] front[i] != Outcome::Done;
            assert(front[i] == outcomes[i]);
        }
    }
}

/// A mapping is reported as written exactly where every step up to the link went well.
pub proof fn lemma_written_when_all_done(outcomes: Seq<Outcome>)
    requires
        run(outcomes).0 == MapStep::Finished,
    ensures
        run(outcomes).1 == Verdict::Written <==> (outcomes.len() >= 5 && forall|i: int|
            0 <= i < 5 ==> #[trigger] outcomes[i] == Outcome::Done),
{
    lemma_progress(outcomes);
}

/// What to do next to write a ranking.
#[derive(Debug, Clone, Copy, PartialEq, Eq, Structural)]
pub enum TableStep {
    /// Create the directory, with its parents, unless it is there.
    CreateDirectory,
    /// See that nothing is at the path; something there counts as a taken name.
    CheckAbsent,
    /// Write the file.
    Write,
    Finished,
}

/// How writing a ranking is going to end, as far as is known.
#[derive(Debug, Clone, PartialEq, Eq)]
pub enum TableVerdict {
    Written,
    NoDirectory(String),
    AlreadyThere,
    NotWritten(String),
}

/// The step and verdict that follow a step of writing a ranking.
pub open spec fn table_after(step: TableStep, verdict: TableVerdict, outcome: Outcome) -> (
    TableStep,
    TableVerdict,
) {
    match (step, outcome) {
        (TableStep::CreateDirectory, Outcome::Done) => (TableStep::CheckAbsent, verdict),
        (TableStep::CreateDirectory, Outcome::Failed { exists, cause }) => (
            TableStep::Finished,
            TableVerdict::NoDirectory(cause),
        ),
        (TableStep::CheckAbsent, Outcome::Done) => (TableStep::Write, verdict),
        (TableStep::CheckAbsent, Outcome::Failed { exists, cause }) => (
            TableStep::Finished,
            TableVerdict::AlreadyThere,
        ),
        (TableStep::Write, Outcome::Done) => (TableStep::Finished, verdict),
        (TableStep::Write, Outcome::Failed { exists, cause }) => (
            TableStep::Finished,
            TableVerdict::NotWritten(cause),
        ),
        (TableStep::Finished, _) => (TableStep::Finished, verdict),
    }
}

/// Writing a freshly trained ranking to its file. Refuses to overwrite: a vocabulary id is a
/// permanent name for a specific ranking, because stored values reference it.
#[derive(Debug, Clone, PartialEq, Eq)]
pub struct TableWrite {
    pub vocabulary_id: u16,
    pub dir: String,
    pub path: String,
    pub step: TableStep,
    pub verdict: TableVerdict,
}

impl TableWrite {
    /// Begin to write a vocabulary's ranking.
    pub fn begin(dir: &str, vocabulary_id: u16) -> (r: Result<Self, RegistryError>)
        ensures
            match r {
                Ok(w) => {
                    &&& dir@.len() > 0
                    &&& w.vocabulary_id == vocabulary_id
                    &&& w.dir@ == dir@
                    &&& w.path@ == path_under(dir@, table_file(vocabulary_id))
                    &&& w.step == TableStep::CreateDirectory
                    &&& w.verdict == TableVerdict::Written
                },
                Err(e) => dir@.len() == 0 && (e matches RegistryError::NoDirectory(p) && p@
                    == "write a vocabulary ranking"@),
            },
    {
        match require_dir(dir, "write a vocabulary ranking") {
            Ok(()) => Ok(
                TableWrite {
                    vocabulary_id,
                    dir: dir.to_owned(),
                    path: table_path(dir, vocabulary_id),
                    step: TableStep::CreateDirectory,
                    verdict: TableVerdict::Written,
                },
            ),
            Err(e) => Err(e),
        }
    }

    /// Take note of how the step went, and go on to the next.
    pub fn advance(self, outcome: Outcome) -> (next: Self)
        ensures
            (next.step, next.verdict) == table_after(self.step, self.verdict, outcome),
            next.vocabulary_id == self.vocabulary_id,
            next.dir == self.dir,
            next.path == self.path,
    {
        let (step, verdict) = match outcome {
            Outcome::Done => match self.step {
                TableStep::CreateDirectory => (TableStep::CheckAbsent, self.verdict),
                TableStep::CheckAbsent => (TableStep::Write, self.verdict),
                TableStep::Write => (TableStep::Finished, self.verdict),
                TableStep::Finished => (TableStep::Finished, self.verdict),
            },
            Outcome::Failed { exists: _, cause } => match self.step {
                TableStep::CreateDirectory => (TableStep::Finished, TableVerdict::NoDirectory(cause)),
                TableStep::CheckAbsent => (TableStep::Finished, TableVerdict::AlreadyThere),
                TableStep::Write => (TableStep::Finished, TableVerdict::NotWritten(cause)),
                TableStep::Finished => (TableStep::Finished, self.verdict),
            },
        };
        TableWrite {
            vocabulary_id: self.vocabulary_id,
            dir: self.dir,
            path: self.path,
            step,
            verdict,
        }
    }

    /// How it ended: the path that was written, or why none was.
    pub fn result(self) -> (r: Result<String, RegistryError>)
        ensures
            match (self.verdict, r) {
                (TableVerdict::Written, Ok(path)) => path == self.path,
                (TableVerdict::NoDirectory(c), Err(e)) => e == (RegistryError::CannotCreateDirectory {
                    path: self.dir,
                    cause: c,
                }),
                (TableVerdict::AlreadyThere, Err(e)) => e == (RegistryError::RankingExists {
                    id: self.vocabulary_id,
                    path: self.path,
                }),
                (TableVerdict::NotWritten(c), Err(e)) => e == (RegistryError::CannotWrite {
                    path: self.path,
                    cause: c,
                }),
                _ => false,
            },
    {
        match self.verdict {
            TableVerdict::Written => Ok(self.path),
            TableVerdict::NoDirectory(cause) => Err(
                RegistryError::CannotCreateDirectory { path: self.dir, cause },
            ),
            TableVerdict::AlreadyThere => Err(
                RegistryError::RankingExists { id: self.vocabulary_id, path: self.path },
            ),
            TableVerdict::NotWritten(cause) => Err(
                RegistryError::CannotWrite { path: self.path, cause },
            ),
        }
    }
}

/// A ranking is written only over nothing: the write comes only after the path was seen to be
/// free.
pub proof fn lemma_ranking_written_over_nothing(
    step: TableStep,
    verdict: TableVerdict,
    outcome: Outcome,
)
    requires
        table_after(step, verdict, outcome).0 == TableStep::Write,
    ensures
        step == TableStep::CheckAbsent,
        outcome == Outcome::Done,
{
}

/// A step that fails is what is reported, with its own cause: the directory ends it at once, and
/// any later step leads to the removal of the temporary file. A taken name is told from every other
/// reason why the link fails.
pub proof fn lemma_failure_is_told(outcomes: Seq<Outcome>, exists: bool, cause: String)
    requires
        1 <= outcomes.len() <= 5,
        forall|i: int| 0 <= i < outcomes.len() - 1 ==> #[trigger] outcomes[i] == Outcome::Done,
        outcomes.last() == (Outcome::Failed { exists, cause }),
    ensures
        outcomes.len() == 1 ==> run(outcomes) == (MapStep::Finished, Verdict::NoDirectory(cause)),
        outcomes.len() == 2 ==> run(outcomes) == (
            MapStep::RemoveTemporary,
            Verdict::NotOpened(cause),
        ),
        outcomes.len() == 3 ==> run(outcomes) == (
            MapStep::RemoveTemporary,
            Verdict::NotWritten(cause),
        ),
        outcomes.len() == 4 ==> run(outcomes) == (
            MapStep::RemoveTemporary,
            Verdict::NotFlushed(cause),
        ),
        outcomes.len() == 5 && exists ==> run(outcomes) == (
            MapStep::RemoveTemporary,
            Verdict::AlreadyThere,
        ),
        outcomes.len() == 5 && !exists ==> run(outcomes) == (
            MapStep::RemoveTemporary,
            Verdict::NotLinked(cause),
        ),
{
    let front = outcomes.drop_last();
    assert forall|i: int| 0 <= i < front.len() implies #[trigger] front[i] == Outcome::Done by {
        assert(front[i] == outcomes[i]);
    }
    lemma_progress(front);
}

/// What has been decided stays decided: removing the temporary file ends the writing, however that
/// goes, and nothing afterwards changes the verdict.
pub proof fn lemma_verdict_is_settled(outcomes: Seq<Outcome>, more: Outcome)
    requires
        run(outcomes).0 == MapStep::RemoveTemporary || run(outcomes).0 == MapStep::Finished,
    ensures
        run(outcomes.push(more)) == (MapStep::Finished, run(outcomes).1),
{
    assert(outcomes.push(more).drop_last() =~= outcomes);
}

/// As long as every step goes well, they come in this order.
pub proof fn lemma_steps_in_order(outcomes: Seq<Outcome>)
    requires
        forall|i: int| 0 <= i < outcomes.len() ==> #[trigger] outcomes[i] == Outcome::Done,
        outcomes.len() <= 6,
    ensures
        run(outcomes) == (
            if outcomes.len() == 0 {
                MapStep::CreateDirectory
            } else if outcomes.len() == 1 {
                MapStep::OpenTemporary
            } else if outcomes.len() == 2 {
                MapStep::WriteTemporary
            } else if outcomes.len() == 3 {
                MapStep::FlushTemporary
            } else if outcomes.len() == 4 {
                MapStep::Link
            } else if outcomes.len() == 5 {
                MapStep::RemoveTemporary
            } else {
                MapStep::Finished
            },
            Verdict::Written,
        ),
{
    lemma_progress(outcomes);
}

/// A temporary file is a hidden one, so it cannot be taken for an artefact, and its name tells the
/// vocabulary, the process and the time apart.
pub proof fn lemma_temporary_name(id: u16, pid: u32, stamp: u128, other: u16)
    ensures
        temporary_file(id, pid, stamp)[0] == '.',
        temporary_file(id, pid, stamp) == "."@ + map_file(id) + "."@ + decimal(pid as nat) + "."@
            + decimal(stamp as nat) + ".tmp"@,
        temporary_file(id, pid, stamp) != map_file(other),
        temporary_file(id, pid, stamp) != table_file(other),
{
    reveal_strlit(".");
    reveal_strlit(".tnmap");
    reveal_strlit(".tnmap.");
    let t = temporary_file(id, pid, stamp);
    assert(t =~= "."@ + map_file(id) + "."@ + decimal(pid as nat) + "."@ + decimal(stamp as nat)
        + ".tmp"@);
    crate::text::lemma_decimal_digit(other as nat, 0);
    lemma_first_digit(other as nat);
    assert(map_file(other)[0] == decimal(other as nat)[0]);
    assert(table_file(other)[0] == decimal(other as nat)[0]);
}

proof fn lemma_first_digit(n: nat)
    ensures
        decimal(n).len() > 0,
        decimal(n)[0] != '.',
    decreases n,
{
    if n >= 10 {
        lemma_first_digit(n / 10);
    }
}

/// Writing a ranking goes on only as each step went well, ends with the file written only after all
/// three did, and tells otherwise which did not, and why.
pub proof fn lemma_ranking_steps(verdict: TableVerdict, exists: bool, cause: String)
    ensures
        table_after(TableStep::CreateDirectory, verdict, Outcome::Done) == (
            TableStep::CheckAbsent,
            verdict,
        ),
        table_after(TableStep::CheckAbsent, verdict, Outcome::Done) == (TableStep::Write, verdict),
        table_after(TableStep::Write, verdict, Outcome::Done) == (TableStep::Finished, verdict),
        ({
            let failed = Outcome::Failed { exists, cause };
            &&& table_after(TableStep::CreateDirectory, verdict, failed) == (
                TableStep::Finished,
                TableVerdict::NoDirectory(cause),
            )
            &&& table_after(TableStep::CheckAbsent, verdict, failed) == (
                TableStep::Finished,
                TableVerdict::AlreadyThere,
            )
            &&& table_after(TableStep::Write, verdict, failed) == (
                TableStep::Finished,
                TableVerdict::NotWritten(cause),
            )
            &&& table_after(TableStep::Finished, verdict, failed) == (TableStep::Finished, verdict)
        }),
{
}

} // verus!
