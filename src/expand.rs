use vstd::prelude::*;
use crate::paths::{has_prefix, hex_digits, hex_text, push_text, starts_with, ID_DIGITS};
use crate::sniff::FileKind;

verus! {

/// The text of each path in `v`.
pub open spec fn texts(v: Seq<String>) -> Seq<Seq<char>> {
    v.map_values(|s: String| s@)
}

/// A directory that the archive at `p` may be unpacked into: beside it,
/// named after it with `_` and `n` in hexadecimal. The expansion takes the
/// least `n` for which the directory is fresh (see [`fresh_for`]).
pub open spec fn dest_text(p: Seq<char>, n: u64) -> Seq<char> {
    p.push('_') + hex_text(n as nat, ID_DIGITS as nat)
}

/// The path `x` lies below the directory `d`.
pub open spec fn inside(x: Seq<char>, d: Seq<char>) -> bool {
    has_prefix(x, d.push('/'))
}

/// The step at which a branch of the expansion failed.
#[derive(Clone, Copy, Debug, PartialEq, Eq, Structural)]
pub enum FailureStage {
    /// The archive library rejected the archive.
    Unpack,
    /// The unpacked directory could not be listed.
    Walk,
    /// A listed file lies outside the directory it was unpacked into.
    Escape,
    /// A listed file was listed before in the same listing.
    Repeated,
    /// Every unpack directory name of the expansion has been used.
    NoDestination,
}

/// A branch of the expansion that failed, and why.
#[derive(Debug)]
pub struct Failure {
    pub path: String,
    pub stage: FailureStage,
    pub cause: String,
}

/// The mathematical value of a [`Failure`].
pub struct FailureModel {
    pub path: Seq<char>,
    pub stage: FailureStage,
    pub cause: Seq<char>,
}

impl View for Failure {
    type V = FailureModel;

    open spec fn view(&self) -> FailureModel {
        FailureModel { path: self.path@, stage: self.stage, cause: self.cause@ }
    }
}

/// What an expansion waits for.
#[derive(Debug)]
pub enum Awaiting {
    /// Nothing: the expansion is finished.
    Nothing,
    /// The kind of the file at this path.
    Kind(String),
    /// The files unpacked from the archive at this path into this
    /// directory.
    Members(String, String),
}

/// The mathematical value of an [`Awaiting`].
pub enum AwaitingModel {
    Nothing,
    Kind(Seq<char>),
    Members(Seq<char>, Seq<char>),
}

impl View for Awaiting {
    type V = AwaitingModel;

    open spec fn view(&self) -> AwaitingModel {
        match self {
            Awaiting::Nothing => AwaitingModel::Nothing,
            Awaiting::Kind(p) => AwaitingModel::Kind(p@),
            Awaiting::Members(p, d) => AwaitingModel::Members(p@, d@),
        }
    }
}

/// The file-system work that an expansion asks of its caller.
#[derive(Debug)]
pub enum Action {
    /// Read the leading bytes of this file and report its kind.
    Sniff(String),
    /// Unpack the archive `source` into the new directory `dest`, list the
    /// regular files below `dest`, and report them.
    Unpack { source: String, dest: String },
    /// Nothing is left to do.
    Finished,
}

/// The mathematical value of an [`Action`].
pub enum ActionModel {
    Sniff(Seq<char>),
    Unpack(Seq<char>, Seq<char>),
    Finished,
}

impl View for Action {
    type V = ActionModel;

    open spec fn view(&self) -> ActionModel {
        match self {
            Action::Sniff(p) => ActionModel::Sniff(p@),
            Action::Unpack { source, dest } => ActionModel::Unpack(source@, dest@),
            Action::Finished => ActionModel::Finished,
        }
    }
}

/// What the caller reports after doing the requested work.
#[derive(Debug)]
pub enum Event {
    /// The kind of the file that was to be sniffed. A file that could not
    /// be read is reported as `Unknown`.
    Kind(FileKind),
    /// The regular files found below the unpack directory. The expansion
    /// keeps them in the order given; the caller lists a directory depth
    /// first, the entries of each directory sorted by name.
    Unpacked(Vec<String>),
    /// The archive library rejected the archive; the cause in words.
    UnpackFailed(String),
    /// The unpack directory could not be listed; the cause in words.
    WalkFailed(String),
}

/// The mathematical value of an [`Event`].
pub enum Reply {
    Kind(FileKind),
    Unpacked(Seq<Seq<char>>),
    Failed(FailureStage, Seq<char>),
}

impl View for Event {
    type V = Reply;

    open spec fn view(&self) -> Reply {
        match self {
            Event::Kind(k) => Reply::Kind(*k),
            Event::Unpacked(v) => Reply::Unpacked(texts(v@)),
            Event::UnpackFailed(c) => Reply::Failed(FailureStage::Unpack, c@),
            Event::WalkFailed(c) => Reply::Failed(FailureStage::Walk, c@),
        }
    }
}

/// The state of one expansion: the file it started from, the files still
/// to classify (next first), what it waits for, the leaves found so far in
/// order, and the branches that failed.
pub struct ExpansionModel {
    pub origin: Seq<char>,
    pub pending: Seq<Seq<char>>,
    pub current: AwaitingModel,
    pub leaves: Seq<Seq<char>>,
    pub failures: Seq<FailureModel>,
}

/// The state in which the expansion of `source` begins: its kind is asked.
pub open spec fn start(source: Seq<char>) -> ExpansionModel {
    ExpansionModel {
        origin: source,
        pending: Seq::empty(),
        current: AwaitingModel::Kind(source),
        leaves: Seq::empty(),
        failures: Seq::empty(),
    }
}

/// An expansion that waits for nothing has nothing left to classify.
pub open spec fn settled(m: ExpansionModel) -> bool {
    m.current is Nothing ==> m.pending.len() == 0
}

/// Takes up the next pending file when the expansion waits for nothing.
pub open spec fn settle(m: ExpansionModel) -> ExpansionModel {
    if m.current is Nothing && m.pending.len() > 0 {
        ExpansionModel {
            pending: m.pending.drop_first(),
            current: AwaitingModel::Kind(m.pending[0]),
            ..m
        }
    } else {
        m
    }
}

/// The listed files of an archive unpacked into `d` that lie below `d`,
/// each once, in listed order.
pub open spec fn accepted(ms: Seq<Seq<char>>, d: Seq<char>) -> Seq<Seq<char>>
    decreases ms.len(),
{
    if ms.len() == 0 {
        Seq::empty()
    } else {
        let rest = accepted(ms.drop_last(), d);
        if inside(ms.last(), d) && !rest.contains(ms.last()) {
            rest.push(ms.last())
        } else {
            rest
        }
    }
}

/// A failure for each listed file of an archive unpacked into `d` that is
/// not accepted: it lies outside `d`, or was listed before.
pub open spec fn rejected(ms: Seq<Seq<char>>, d: Seq<char>) -> Seq<FailureModel>
    decreases ms.len(),
{
    if ms.len() == 0 {
        Seq::empty()
    } else {
        let rest = rejected(ms.drop_last(), d);
        if !inside(ms.last(), d) {
            rest.push(FailureModel { path: ms.last(), stage: FailureStage::Escape, cause: d })
        } else if accepted(ms.drop_last(), d).contains(ms.last()) {
            rest.push(FailureModel { path: ms.last(), stage: FailureStage::Repeated, cause: d })
        } else {
            rest
        }
    }
}

/// The state after the caller reports `r`. A report that does not answer
/// what the expansion waits for changes nothing.
///
/// A file that is not an archive becomes the next leaf. The files of an
/// unpacked archive are classified next, before the files that were
/// pending, so the leaves come out in depth-first order. A failed archive
/// adds a failure and no leaf; its siblings go on.
pub open spec fn feed(m: ExpansionModel, r: Reply) -> ExpansionModel {
    match m.current {
        AwaitingModel::Kind(p) => match r {
            Reply::Kind(k) => if k != FileKind::Archive {
                settle(ExpansionModel { current: AwaitingModel::Nothing, leaves: m.leaves.push(p), ..m })
            } else if first_fresh(p, m.pending, m.leaves, 0) is Some {
                ExpansionModel {
                    current: AwaitingModel::Members(
                        p,
                        dest_text(p, first_fresh(p, m.pending, m.leaves, 0)->0),
                    ),
                    ..m
                }
            } else {
                settle(
                    ExpansionModel {
                        current: AwaitingModel::Nothing,
                        failures: m.failures.push(
                            FailureModel {
                                path: p,
                                stage: FailureStage::NoDestination,
                                cause: Seq::empty(),
                            },
                        ),
                        ..m
                    },
                )
            },
            _ => m,
        },
        AwaitingModel::Members(p, d) => match r {
            Reply::Unpacked(ms) => settle(
                ExpansionModel {
                    current: AwaitingModel::Nothing,
                    pending: accepted(ms, d) + m.pending,
                    failures: m.failures + rejected(ms, d),
                    ..m
                },
            ),
            Reply::Failed(stage, cause) => settle(
                ExpansionModel {
                    current: AwaitingModel::Nothing,
                    failures: m.failures.push(FailureModel { path: p, stage, cause }),
                    ..m
                },
            ),
            _ => m,
        },
        AwaitingModel::Nothing => m,
    }
}

/// The work that the state `m` asks for.
pub open spec fn action_of(m: ExpansionModel) -> ActionModel {
    match m.current {
        AwaitingModel::Nothing => ActionModel::Finished,
        AwaitingModel::Kind(p) => ActionModel::Sniff(p),
        AwaitingModel::Members(p, d) => ActionModel::Unpack(p, d),
    }
}

/// The unpack directory `d` is fresh for the paths `xs`: none of them is
/// `d` or lies below it.
pub open spec fn fresh_for(d: Seq<char>, xs: Seq<Seq<char>>) -> bool {
    forall|i: int| 0 <= i < xs.len() ==> #[trigger] xs[i] != d && !inside(xs[i], d)
}

/// The least number from `n` on whose directory for the archive at `p` is
/// fresh for the files still to classify and for the leaves, if any.
pub open spec fn first_fresh(
    p: Seq<char>,
    pending: Seq<Seq<char>>,
    leaves: Seq<Seq<char>>,
    n: u64,
) -> Option<u64>
    decreases u64::MAX - n,
{
    if fresh_for(dest_text(p, n), pending) && fresh_for(dest_text(p, n), leaves) {
        Some(n)
    } else if n == u64::MAX {
        None
    } else {
        first_fresh(p, pending, leaves, (n + 1) as u64)
    }
}

/// What [`first_fresh`] finds is fresh.
pub proof fn lemma_first_fresh(p: Seq<char>, pending: Seq<Seq<char>>, leaves: Seq<Seq<char>>, n: u64)
    requires
        first_fresh(p, pending, leaves, n) is Some,
    ensures
        fresh_for(dest_text(p, first_fresh(p, pending, leaves, n)->0), pending),
        fresh_for(dest_text(p, first_fresh(p, pending, leaves, n)->0), leaves),
    decreases u64::MAX - n,
{
    if !(fresh_for(dest_text(p, n), pending) && fresh_for(dest_text(p, n), leaves)) {
        lemma_first_fresh(p, pending, leaves, (n + 1) as u64);
    }
}

/// The states that an expansion can reach: it is settled, and the
/// directory it waits on is fresh for the files it holds.
pub open spec fn orderly(m: ExpansionModel) -> bool {
    &&& settled(m)
    &&& m.current matches AwaitingModel::Members(_, d) ==> fresh_for(d, m.pending) && fresh_for(d, m.leaves)
}

/// Every step keeps an expansion orderly.
pub proof fn lemma_feed_orderly(m: ExpansionModel, r: Reply)
    requires
        orderly(m),
    ensures
        orderly(feed(m, r)),
{
    if let AwaitingModel::Kind(p) = m.current {
        if first_fresh(p, m.pending, m.leaves, 0) is Some {
            lemma_first_fresh(p, m.pending, m.leaves, 0);
        }
    }
}

/// The state after the reports `rs`, one after another.
pub open spec fn run(m: ExpansionModel, rs: Seq<Reply>) -> ExpansionModel
    decreases rs.len(),
{
    if rs.len() == 0 {
        m
    } else {
        run(feed(m, rs[0]), rs.drop_first())
    }
}

/// The expansion of one file into the plain files it holds.
///
/// It is driven by its caller: [`Expansion::action`] says what to do next,
/// and [`Expansion::feed`] takes the outcome. The files still to classify
/// are kept in a work list, so nesting depth costs no stack.
pub struct Expansion {
    origin: String,
    pending: Vec<String>,
    current: Awaiting,
    leaves: Vec<String>,
    failures: Vec<Failure>,
}

impl View for Expansion {
    type V = ExpansionModel;

    closed spec fn view(&self) -> ExpansionModel {
        ExpansionModel {
            origin: self.origin@,
            pending: texts(self.pending@),
            current: self.current@,
            leaves: texts(self.leaves@),
            failures: self.failures@.map_values(|f: Failure| f@),
        }
    }
}

impl Expansion {
    /// The expansion is in a state that [`Expansion::feed`] can reach.
    pub open spec fn well_formed(&self) -> bool {
        orderly(self@)
    }

    /// Begins the expansion of the file at `source`, which should be a fresh
    /// copy in a directory of its own: unpack directories are fresh for
    /// what one expansion lists, and two expansions of the very same path
    /// would ask for the same directories.
    pub fn new(source: String) -> (r: Self)
        ensures
            r@ == start(source@),
            r.well_formed(),
    {
        let first = source.clone();
        let r = Expansion {
            origin: source,
            pending: Vec::new(),
            current: Awaiting::Kind(first),
            leaves: Vec::new(),
            failures: Vec::new(),
        };
        assert(r@.pending =~= Seq::<Seq<char>>::empty());
        assert(r@.leaves =~= Seq::<Seq<char>>::empty());
        assert(r@.failures =~= Seq::<FailureModel>::empty());
        r
    }

    /// The work to do next. An unpack directory is fresh: no file still to
    /// classify and no leaf is that directory or lies below it.
    pub fn action(&self) -> (r: Action)
        requires
            self.well_formed(),
        ensures
            r@ == action_of(self@),
            r@ is Unpack ==> fresh_for(r@->Unpack_1, self@.pending) && fresh_for(
                r@->Unpack_1,
                self@.leaves,
            ),
    {
        match &self.current {
            Awaiting::Nothing => Action::Finished,
            Awaiting::Kind(p) => Action::Sniff(p.clone()),
            Awaiting::Members(p, d) => {
                let dest = d.clone();
                Action::Unpack { source: p.clone(), dest }
            },
        }
    }

    /// Whether nothing is left to do.
    pub fn is_finished(&self) -> (r: bool)
        ensures
            r == (self@.current is Nothing),
    {
        match &self.current {
            Awaiting::Nothing => true,
            _ => false,
        }
    }

    /// The leaves found so far, in order.
    pub fn leaves(&self) -> (r: &Vec<String>)
        ensures
            texts(r@) == self@.leaves,
    {
        &self.leaves
    }

    /// The branches that failed so far, in order.
    pub fn failures(&self) -> (r: &Vec<Failure>)
        ensures
            r@.map_values(|f: Failure| f@) == self@.failures,
    {
        &self.failures
    }

    /// The file the expansion started from.
    pub fn origin(&self) -> (r: &String)
        ensures
            r@ == self@.origin,
    {
        &self.origin
    }

    /// Ends the expansion and hands over its leaves and failures.
    pub fn into_outcome(self) -> (r: (Vec<String>, Vec<Failure>))
        ensures
            texts(r.0@) == self@.leaves,
            r.1@.map_values(|f: Failure| f@) == self@.failures,
    {
        (self.leaves, self.failures)
    }

    fn settle_now(&mut self)
        ensures
            final(self)@ == settle(old(self)@),
    {
        let idle = match &self.current {
            Awaiting::Nothing => true,
            _ => false,
        };
        if idle && self.pending.len() > 0 {
            let ghost before = self.pending@;
            let next = self.pending.remove(0);
            assert(texts(self.pending@) =~= texts(before).drop_first());
            self.current = Awaiting::Kind(next);
        }
    }

    /// Takes the outcome of the requested work.
    pub fn feed(&mut self, event: Event)
        requires
            old(self).well_formed(),
        ensures
            final(self)@ == feed(old(self)@, event@),
            final(self).well_formed(),
    {
        proof {
            lemma_feed_orderly(self@, event@);
        }
        let waiting_kind = match &self.current {
            Awaiting::Kind(p) => Some(p.clone()),
            _ => None,
        };
        let waiting_members = match &self.current {
            Awaiting::Members(p, d) => Some((p.clone(), d.clone())),
            _ => None,
        };
        match (waiting_kind, waiting_members, event) {
            (Some(p), _, Event::Kind(k)) => {
                if k != FileKind::Archive {
                    let ghost before = self.leaves@;
                    self.current = Awaiting::Nothing;
                    self.leaves.push(p);
                    assert(texts(self.leaves@) =~= texts(before).push(p@));
                    self.settle_now();
                } else {
                    match self.fresh_dest(&p) {
                        Some(d) => {
                            self.current = Awaiting::Members(p, d);
                        },
                        None => {
                            self.record_failure(p, FailureStage::NoDestination, String::new());
                        },
                    }
                }
            },
            (_, Some((p, dest)), Event::Unpacked(ms)) => {
                let (mut inside, mut outside) = split_members(&ms, &dest);
                let ghost old_pending = self.pending@;
                let ghost old_failures = self.failures@;
                inside.append(&mut self.pending);
                self.pending = inside;
                self.failures.append(&mut outside);
                assert(texts(self.pending@) =~= accepted(texts(ms@), dest@) + texts(old_pending));
                assert(self.failures@.map_values(|f: Failure| f@) =~= old_failures.map_values(
                    |f: Failure| f@,
                ) + rejected(texts(ms@), dest@));
                self.current = Awaiting::Nothing;
                self.settle_now();
            },
            (_, Some((p, _)), Event::UnpackFailed(cause)) => {
                self.record_failure(p, FailureStage::Unpack, cause);
            },
            (_, Some((p, _)), Event::WalkFailed(cause)) => {
                self.record_failure(p, FailureStage::Walk, cause);
            },
            _ => {},
        }
    }

    /// The directory for the archive at `p` that [`first_fresh`] names.
    fn fresh_dest(&self, p: &String) -> (r: Option<String>)
        ensures
            match first_fresh(p@, self@.pending, self@.leaves, 0) {
                None => r is None,
                Some(n) => r is Some && r->0@ == dest_text(p@, n),
            },
    {
        let mut n: u64 = 0;
        loop
            invariant
                first_fresh(p@, self@.pending, self@.leaves, 0) == first_fresh(
                    p@,
                    self@.pending,
                    self@.leaves,
                    n,
                ),
            decreases u64::MAX - n,
        {
            proof {
                reveal_strlit("_");
            }
            let mut d = push_text(p, "_");
            let digits = hex_digits(n, ID_DIGITS);
            d.append(digits.as_str());
            assert(d@ =~= dest_text(p@, n));
            if is_fresh(&d, &self.pending) && is_fresh(&d, &self.leaves) {
                return Some(d);
            }
            if n == u64::MAX {
                return None;
            }
            n = n + 1;
        }
    }

    fn record_failure(&mut self, path: String, stage: FailureStage, cause: String)
        ensures
            final(self)@ == settle(
                ExpansionModel {
                    current: AwaitingModel::Nothing,
                    failures: old(self)@.failures.push(
                        FailureModel { path: path@, stage, cause: cause@ },
                    ),
                    ..old(self)@
                },
            ),
    {
        let ghost before = self.failures@;
        self.failures.push(Failure { path, stage, cause });
        assert(self.failures@.map_values(|f: Failure| f@) =~= before.map_values(|f: Failure| f@).push(
            FailureModel { path: path@, stage, cause: cause@ },
        ));
        self.current = Awaiting::Nothing;
        self.settle_now();
    }
}

/// Whether the directory `d` is fresh for the paths `xs`.
fn is_fresh(d: &String, xs: &Vec<String>) -> (r: bool)
    ensures
        r == fresh_for(d@, texts(xs@)),
{
    proof {
        reveal_strlit("/");
    }
    let below = push_text(d, "/");
    assert(below@ == d@.push('/'));
    let mut i: usize = 0;
    while i < xs.len()
        invariant
            i <= xs@.len(),
            below@ == d@.push('/'),
            forall|j: int| 0 <= j < i ==> #[trigger] texts(xs@)[j] != d@ && !inside(texts(xs@)[j], d@),
        decreases xs@.len() - i,
    {
        if xs[i] == *d || starts_with(xs[i].as_str(), below.as_str()) {
            assert(texts(xs@)[i as int] == xs@[i as int]@);
            return false;
        }
        i = i + 1;
    }
    true
}

/// Whether the text `s` is one of `v`.
fn contains_text(v: &Vec<String>, s: &String) -> (r: bool)
    ensures
        r == texts(v@).contains(s@),
{
    let mut i: usize = 0;
    while i < v.len()
        invariant
            i <= v@.len(),
            forall|j: int| 0 <= j < i ==> v@[j]@ != s@,
        decreases v@.len() - i,
    {
        if v[i] == *s {
            assert(texts(v@)[i as int] == s@);
            return true;
        }
        i = i + 1;
    }
    false
}

/// Splits the files listed for an archive unpacked into `dest` into those
/// accepted and a failure for each of the others, keeping order.
fn split_members(ms: &Vec<String>, dest: &String) -> (r: (Vec<String>, Vec<Failure>))
    ensures
        texts(r.0@) == accepted(texts(ms@), dest@),
        r.1@.map_values(|f: Failure| f@) == rejected(texts(ms@), dest@),
{
    proof {
        reveal_strlit("/");
    }
    let prefix = push_text(dest, "/");
    assert(prefix@ == dest@.push('/'));
    let mut inside: Vec<String> = Vec::new();
    let mut outside: Vec<Failure> = Vec::new();
    let mut i: usize = 0;
    while i < ms.len()
        invariant
            i <= ms@.len(),
            prefix@ == dest@.push('/'),
            texts(inside@) == accepted(texts(ms@).take(i as int), dest@),
            outside@.map_values(|f: Failure| f@) == rejected(texts(ms@).take(i as int), dest@),
        decreases ms@.len() - i,
    {
        let ghost all = texts(ms@);
        assert(all.take(i + 1).drop_last() =~= all.take(i as int));
        assert(all.take(i + 1).last() == ms@[i as int]@);
        let ghost before_in = inside@;
        let ghost before_out = outside@;
        let below = starts_with(ms[i].as_str(), prefix.as_str());
        if !below {
            outside.push(Failure { path: ms[i].clone(), stage: FailureStage::Escape, cause: dest.clone() });
            assert(outside@.map_values(|f: Failure| f@) =~= before_out.map_values(|f: Failure| f@).push(
                FailureModel { path: ms@[i as int]@, stage: FailureStage::Escape, cause: dest@ },
            ));
        } else if contains_text(&inside, &ms[i]) {
            outside.push(Failure { path: ms[i].clone(), stage: FailureStage::Repeated, cause: dest.clone() });
            assert(outside@.map_values(|f: Failure| f@) =~= before_out.map_values(|f: Failure| f@).push(
                FailureModel { path: ms@[i as int]@, stage: FailureStage::Repeated, cause: dest@ },
            ));
        } else {
            inside.push(ms[i].clone());
            assert(texts(inside@) =~= texts(before_in).push(ms@[i as int]@));
        }
        i = i + 1;
    }
    assert(texts(ms@).take(ms@.len() as int) =~= texts(ms@));
    (inside, outside)
}

} // verus!
