use vstd::prelude::*;
use crate::paths::{
    has_prefix, hex_capacity, hex_digits, hex_text, lemma_hex_text_injective,
    lemma_u64_fits_id_digits, push_text, ID_DIGITS,
};

verus! {

/// The directory of submission `id` under the scratch root `root`.
pub open spec fn submission_dir(root: Seq<char>, id: u64) -> Seq<char> {
    root.push('/') + hex_text(id as nat, ID_DIGITS as nat)
}

/// Where the file named `name` of submission `id` is copied to.
pub open spec fn submission_source(root: Seq<char>, id: u64, name: Seq<char>) -> Seq<char> {
    submission_dir(root, id).push('/') + name
}

/// The mathematical value of a [`ScratchRoot`]: its directory and the
/// identifier that the next submission gets.
pub struct ScratchModel {
    pub root: Seq<char>,
    pub next_id: u64,
}

/// The directory that holds every copy and every unpacked archive of this
/// process. Each submission gets a subdirectory of its own, named by a
/// counter, so that no two submissions write to the same place.
pub struct ScratchRoot {
    root: String,
    next_id: u64,
}

/// The places given to one submitted file.
#[derive(Debug)]
pub struct Submission {
    /// The identifier of the submission.
    pub id: u64,
    /// The directory of the submission, inside the scratch root.
    pub dir: String,
    /// Where the submitted file is to be copied, inside `dir`.
    pub source: String,
}

impl View for ScratchRoot {
    type V = ScratchModel;

    closed spec fn view(&self) -> ScratchModel {
        ScratchModel { root: self.root@, next_id: self.next_id }
    }
}

impl ScratchRoot {
    /// A scratch root at the directory `root`, with no submission yet.
    pub fn new(root: String) -> (r: Self)
        ensures
            r@ == (ScratchModel { root: root@, next_id: 0 }),
    {
        ScratchRoot { root, next_id: 0 }
    }

    /// The directory of the scratch root.
    pub fn root(&self) -> (r: &String)
        ensures
            r@ == self@.root,
    {
        &self.root
    }

    /// Gives the file named `file_name` a submission of its own: the next
    /// identifier, its directory, and where the file is copied to. `None`
    /// once every identifier has been given out.
    pub fn submit(&mut self, file_name: &str) -> (r: Option<Submission>)
        ensures
            old(self)@.next_id == u64::MAX ==> r is None && final(self)@ == old(self)@,
            old(self)@.next_id < u64::MAX ==> {
                &&& r is Some
                &&& r->0.id == old(self)@.next_id
                &&& r->0.dir@ == submission_dir(old(self)@.root, r->0.id)
                &&& r->0.source@ == submission_source(old(self)@.root, r->0.id, file_name@)
                &&& final(self)@ == (ScratchModel {
                    root: old(self)@.root,
                    next_id: (old(self)@.next_id + 1) as u64,
                })
            },
    {
        if self.next_id == u64::MAX {
            return None;
        }
        let id = self.next_id;
        self.next_id = id + 1;
        proof {
            reveal_strlit("/");
        }
        let mut dir = push_text(&self.root, "/");
        let digits = hex_digits(id, ID_DIGITS);
        dir.append(digits.as_str());
        assert(dir@ =~= submission_dir(self.root@, id));
        let mut source = push_text(&dir, "/");
        source.append(file_name);
        assert(source@ =~= submission_source(self.root@, id, file_name@));
        Some(Submission { id, dir, source })
    }
}

/// The directories of two different submissions under one scratch root
/// share no path: a path inside the one is not inside the other.
pub proof fn lemma_submission_dirs_disjoint(root: Seq<char>, a: u64, b: u64, path: Seq<char>)
    requires
        a != b,
        has_prefix(path, submission_dir(root, a).push('/')),
    ensures
        !has_prefix(path, submission_dir(root, b).push('/')),
{
    let da = submission_dir(root, a).push('/');
    let db = submission_dir(root, b).push('/');
    let ta = hex_text(a as nat, ID_DIGITS as nat);
    let tb = hex_text(b as nat, ID_DIGITS as nat);
    crate::paths::lemma_hex_text_len(a as nat, ID_DIGITS as nat);
    crate::paths::lemma_hex_text_len(b as nat, ID_DIGITS as nat);
    if has_prefix(path, db) {
        assert(da.len() == db.len());
        assert(da =~= path.take(da.len() as int));
        assert(da == db);
        let start: int = root.len() as int + 1;
        assert(ta =~= da.subrange(start, start + ID_DIGITS as int));
        assert(tb =~= db.subrange(start, start + ID_DIGITS as int));
        lemma_u64_fits_id_digits(a);
        lemma_u64_fits_id_digits(b);
        lemma_hex_text_injective(a as nat, b as nat, ID_DIGITS as nat);
    }
}

} // verus!
