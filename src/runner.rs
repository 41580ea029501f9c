use vstd::prelude::*;
use crate::expand::{texts, Expansion, Failure};
use crate::scratch::{submission_dir, submission_source, ScratchRoot, Submission};

verus! {

/// Why a submission produced no file list.
#[derive(Debug)]
pub enum SubmissionError {
    /// Every submission identifier has been given out.
    NoIdentifier,
    /// The submitted file at `path` could not be copied into the scratch
    /// root; the cause in words.
    Copy { path: String, cause: String },
}

/// The outcome of one finished submission: the plain files found, in
/// order, and the branches that failed.
#[derive(Debug)]
pub struct Report {
    pub id: u64,
    pub leaves: Vec<String>,
    pub failures: Vec<Failure>,
}

impl Report {
    /// The report of submission `id`, from its expansion.
    pub fn from_expansion(id: u64, expansion: Expansion) -> (r: Report)
        ensures
            r.id == id,
            texts(r.leaves@) == expansion@.leaves,
            r.failures@.map_values(|f: Failure| f@) == expansion@.failures,
    {
        let (leaves, failures) = expansion.into_outcome();
        Report { id, leaves, failures }
    }
}

/// The files found by every submission so far. The leaves of one
/// submission are added together and in their order; submissions may come
/// in any order.
#[derive(Debug)]
pub struct FileList {
    paths: Vec<String>,
}

impl View for FileList {
    type V = Seq<Seq<char>>;

    closed spec fn view(&self) -> Seq<Seq<char>> {
        texts(self.paths@)
    }
}

impl FileList {
    /// An empty list.
    pub fn new() -> (r: Self)
        ensures
            r@ == Seq::<Seq<char>>::empty(),
    {
        let r = FileList { paths: Vec::new() };
        assert(r@ =~= Seq::<Seq<char>>::empty());
        r
    }

    /// The files, in the order they were added.
    pub fn paths(&self) -> (r: &Vec<String>)
        ensures
            texts(r@) == self@,
    {
        &self.paths
    }

    /// Adds the leaves of a finished submission after the files already
    /// listed.
    pub fn add_report(&mut self, report: &Report)
        ensures
            final(self)@ == old(self)@ + texts(report.leaves@),
    {
        let mut i: usize = 0;
        let ghost start = self@;
        while i < report.leaves.len()
            invariant
                i <= report.leaves@.len(),
                self@ == start + texts(report.leaves@).take(i as int),
            decreases report.leaves@.len() - i,
        {
            let ghost before = self.paths@;
            self.paths.push(report.leaves[i].clone());
            assert(texts(self.paths@) =~= texts(before).push(report.leaves@[i as int]@));
            assert(texts(report.leaves@).take(i + 1) =~= texts(report.leaves@).take(i as int).push(
                report.leaves@[i as int]@,
            ));
            i = i + 1;
        }
        assert(texts(report.leaves@).take(i as int) =~= texts(report.leaves@));
    }
}

/// Gives the file at `path`, whose file name is `file_name` (if it has a
/// usable one), a submission of its own.
pub fn start_submission(scratch: &mut ScratchRoot, path: &str, file_name: Option<&str>) -> (r: Result<
    Submission,
    SubmissionError,
>)
    ensures
        file_name is None ==> final(scratch)@ == old(scratch)@ && (r matches Err(
            SubmissionError::Copy { path: p, .. },
        ) && p@ == path@),
        file_name is Some && old(scratch)@.next_id == u64::MAX ==> final(scratch)@ == old(scratch)@
            && (r matches Err(SubmissionError::NoIdentifier)),
        file_name is Some && old(scratch)@.next_id < u64::MAX ==> {
            &&& r is Ok
            &&& r->Ok_0.id == old(scratch)@.next_id
            &&& r->Ok_0.dir@ == submission_dir(old(scratch)@.root, r->Ok_0.id)
            &&& r->Ok_0.source@ == submission_source(old(scratch)@.root, r->Ok_0.id, file_name->0@)
            &&& final(scratch)@.root == old(scratch)@.root
            &&& final(scratch)@.next_id == old(scratch)@.next_id + 1
        },
{
    match file_name {
        None => Err(
            SubmissionError::Copy {
                path: path.to_owned(),
                cause: String::from_str("the path has no usable file name"),
            },
        ),
        Some(name) => match scratch.submit(name) {
            Some(s) => Ok(s),
            None => Err(SubmissionError::NoIdentifier),
        },
    }
}

/// What a worker sends to the listener when its submission ends.
#[derive(Debug)]
pub enum Notice {
    /// The submission finished: its report, whose leaves have been added to
    /// the shared list.
    Listed(Report),
    /// The submission `id` (if one was given) failed as a whole.
    Failed(Option<u64>, SubmissionError),
}

} // verus!
