//! What a whole run of an expansion yields, proved from its single steps.

use vstd::prelude::*;
use crate::expand::{
    accepted, dest_text, feed, first_fresh, fresh_for, inside, lemma_feed_orderly, orderly,
    rejected, run, settle, start, AwaitingModel, ExpansionModel, FailureModel, FailureStage, Reply,
};
use crate::paths::{
    has_prefix, hex_text, lemma_hex_text_injective, lemma_hex_text_len, lemma_u64_fits_id_digits,
    ID_DIGITS,
};
use crate::scratch::{lemma_submission_dirs_disjoint, submission_dir, submission_source};
use crate::sniff::FileKind;

verus! {

/// Running two lists of reports one after the other is running their
/// concatenation.
pub proof fn lemma_run_append(m: ExpansionModel, a: Seq<Reply>, b: Seq<Reply>)
    ensures
        run(m, a + b) == run(run(m, a), b),
    decreases a.len(),
{
    if a.len() > 0 {
        assert((a + b).drop_first() =~= a.drop_first() + b);
        assert((a + b)[0] == a[0]);
        lemma_run_append(feed(m, a[0]), a.drop_first(), b);
    } else {
        assert(a + b =~= b);
    }
}

proof fn lemma_run_two(m: ExpansionModel, r1: Reply, r2: Reply)
    ensures
        run(m, seq![r1, r2]) == feed(feed(m, r1), r2),
{
    let rs = seq![r1, r2];
    assert(rs[0] == r1);
    assert(rs.drop_first() =~= seq![r2]);
    assert(seq![r2][0] == r2);
    assert(seq![r2].drop_first() =~= Seq::<Reply>::empty());
    assert(run(feed(m, r1), seq![r2]) == run(feed(feed(m, r1), r2), Seq::<Reply>::empty()));
}

proof fn lemma_run_one(m: ExpansionModel, r: Reply)
    ensures
        run(m, seq![r]) == feed(m, r),
{
    assert(seq![r][0] == r);
    assert(seq![r].drop_first() =~= Seq::<Reply>::empty());
    assert(run(feed(m, r), Seq::<Reply>::empty()) == feed(m, r));
}

/// `n` reports of the same kind.
pub open spec fn kinds(k: FileKind, n: nat) -> Seq<Reply> {
    Seq::new(n, |i: int| Reply::Kind(k))
}

proof fn lemma_accepted_all(ms: Seq<Seq<char>>, d: Seq<char>)
    requires
        forall|i: int| 0 <= i < ms.len() ==> inside(#[trigger] ms[i], d),
        ms.no_duplicates(),
    ensures
        accepted(ms, d) == ms,
        rejected(ms, d) == Seq::<FailureModel>::empty(),
    decreases ms.len(),
{
    if ms.len() > 0 {
        let rest = ms.drop_last();
        assert forall|i: int| 0 <= i < rest.len() implies inside(#[trigger] rest[i], d) by {
            assert(rest[i] == ms[i]);
        }
        assert(rest.no_duplicates()) by {
            assert forall|i: int, j: int| 0 <= i < rest.len() && 0 <= j < rest.len() && i != j
                implies rest[i] != rest[j] by {
                assert(rest[i] == ms[i] && rest[j] == ms[j]);
            }
        }
        lemma_accepted_all(rest, d);
        assert(inside(ms[ms.len() - 1], d));
        if rest.contains(ms.last()) {
            let j = choose|j: int| 0 <= j < rest.len() && rest[j] == ms.last();
            assert(ms[j] == ms[ms.len() - 1]);
        }
        assert(rest.push(ms.last()) =~= ms);
    }
}

proof fn lemma_accepted_distinct(ms: Seq<Seq<char>>, d: Seq<char>)
    ensures
        accepted(ms, d).no_duplicates(),
        forall|i: int| 0 <= i < accepted(ms, d).len() ==> inside(#[trigger] accepted(ms, d)[i], d),
    decreases ms.len(),
{
    if ms.len() > 0 {
        let rest = accepted(ms.drop_last(), d);
        lemma_accepted_distinct(ms.drop_last(), d);
        if inside(ms.last(), d) && !rest.contains(ms.last()) {
            let r = rest.push(ms.last());
            assert forall|i: int| 0 <= i < r.len() implies inside(#[trigger] r[i], d) by {
                if i < rest.len() {
                    assert(r[i] == rest[i]);
                }
            }
            assert forall|i: int, j: int| 0 <= i < r.len() && 0 <= j < r.len() && i != j
                implies r[i] != r[j] by {
                if i < rest.len() && j < rest.len() {
                    assert(r[i] == rest[i] && r[j] == rest[j]);
                } else if i < rest.len() {
                    assert(r[i] == rest[i]);
                } else if j < rest.len() {
                    assert(r[j] == rest[j]);
                }
            }
        }
    }
}

/// Classifying the current file and every pending one as plain files ends
/// the expansion with those files appended to the leaves, in order.
proof fn lemma_plain_run(m: ExpansionModel, x: Seq<char>, k: FileKind)
    requires
        m.current == AwaitingModel::Kind(x),
        k != FileKind::Archive,
    ensures
        run(m, kinds(k, m.pending.len() + 1)) == (ExpansionModel {
            pending: Seq::empty(),
            current: AwaitingModel::Nothing,
            leaves: m.leaves.push(x) + m.pending,
            ..m
        }),
    decreases m.pending.len(),
{
    let rs = kinds(k, m.pending.len() + 1);
    let m1 = feed(m, rs[0]);
    assert(rs.drop_first() =~= kinds(k, m.pending.len()));
    if m.pending.len() == 0 {
        assert(run(m1, rs.drop_first()) == m1);
        assert(m.pending =~= Seq::<Seq<char>>::empty());
        assert(m.leaves.push(x) + m.pending =~= m.leaves.push(x));
    } else {
        let y = m.pending[0];
        assert(m1 == (ExpansionModel {
            pending: m.pending.drop_first(),
            current: AwaitingModel::Kind(y),
            leaves: m.leaves.push(x),
            ..m
        }));
        lemma_plain_run(m1, y, k);
        assert(m.leaves.push(x).push(y) + m.pending.drop_first() =~= m.leaves.push(x) + m.pending);
    }
}

/// A file that is not an archive expands to itself alone.
pub proof fn lemma_plain_file(source: Seq<char>, k: FileKind)
    requires
        k != FileKind::Archive,
    ensures
        run(start(source), seq![Reply::Kind(k)]).current is Nothing,
        run(start(source), seq![Reply::Kind(k)]).leaves == seq![source],
        run(start(source), seq![Reply::Kind(k)]).failures.len() == 0,
{
    lemma_plain_run(start(source), source, k);
    assert(kinds(k, 1) =~= seq![Reply::Kind(k)]);
    assert(Seq::<Seq<char>>::empty().push(source) + Seq::<Seq<char>>::empty() =~= seq![source]);
}

/// An archive whose files are all plain expands to those files, in listed
/// order, and never to the archive itself.
pub proof fn lemma_flat_archive(source: Seq<char>, members: Seq<Seq<char>>, k: FileKind)
    requires
        forall|i: int| 0 <= i < members.len() ==> inside(#[trigger] members[i], dest_text(source, 0)),
        members.no_duplicates(),
        k != FileKind::Archive,
    ensures
        ({
            let r = run(
                start(source),
                seq![Reply::Kind(FileKind::Archive), Reply::Unpacked(members)] + kinds(k, members.len()),
            );
            &&& r.current is Nothing
            &&& r.leaves == members
            &&& r.failures.len() == 0
            &&& !r.leaves.contains(source)
        }),
{
    let head = seq![Reply::Kind(FileKind::Archive), Reply::Unpacked(members)];
    let d = dest_text(source, 0);
    assert(first_fresh(source, Seq::empty(), Seq::empty(), 0) == Some(0u64));
    lemma_run_append(start(source), head, kinds(k, members.len()));
    lemma_accepted_all(members, d);
    lemma_run_two(start(source), head[0], head[1]);
    let m2 = run(start(source), head);
    assert(members + Seq::<Seq<char>>::empty() =~= members);
    assert(Seq::<FailureModel>::empty() + Seq::<FailureModel>::empty() =~= Seq::<FailureModel>::empty());
    if members.len() == 0 {
        assert(kinds(k, 0) =~= Seq::<Reply>::empty());
        assert(m2.leaves =~= members);
    } else {
        assert(m2.current == AwaitingModel::Kind(members[0]));
        assert(m2.pending == members.drop_first());
        assert(m2.leaves == Seq::<Seq<char>>::empty());
        lemma_plain_run(m2, members[0], k);
        assert(Seq::<Seq<char>>::empty().push(members[0]) + members.drop_first() =~= members);
    }
    let r = run(start(source), head + kinds(k, members.len()));
    if r.leaves.contains(source) {
        let i = choose|i: int| 0 <= i < r.leaves.len() && r.leaves[i] == source;
        assert(inside(members[i], d));
        assert(members[i].len() > source.len());
    }
}

/// An archive with no files expands to nothing.
pub proof fn lemma_empty_archive(source: Seq<char>)
    ensures
        ({
            let r = run(
                start(source),
                seq![Reply::Kind(FileKind::Archive), Reply::Unpacked(Seq::empty())],
            );
            &&& r.current is Nothing
            &&& r.leaves.len() == 0
            &&& r.failures.len() == 0
        }),
{
    lemma_flat_archive(source, Seq::empty(), FileKind::Other);
    assert(seq![Reply::Kind(FileKind::Archive), Reply::Unpacked(Seq::empty())] + kinds(
        FileKind::Other,
        0,
    ) =~= seq![Reply::Kind(FileKind::Archive), Reply::Unpacked(Seq::empty())]);
}

/// Every step keeps the expansion orderly, whatever the caller reports.
pub proof fn lemma_run_orderly(m: ExpansionModel, rs: Seq<Reply>)
    requires
        orderly(m),
    ensures
        orderly(run(m, rs)),
        run(m, rs).origin == m.origin,
    decreases rs.len(),
{
    if rs.len() > 0 {
        lemma_feed_orderly(m, rs[0]);
        lemma_run_orderly(feed(m, rs[0]), rs.drop_first());
    }
}

proof fn lemma_start_orderly(source: Seq<char>)
    ensures
        orderly(start(source)),
{
}

/// The innermost file of archives nested by `names`: each name is the only
/// file of the archive that the names before it lead to, and each archive
/// is unpacked beside itself.
pub open spec fn nested_leaf(source: Seq<char>, names: Seq<Seq<char>>) -> Seq<char>
    decreases names.len(),
{
    if names.len() == 0 {
        source
    } else {
        dest_text(nested_leaf(source, names.drop_last()), 0).push('/') + names.last()
    }
}

/// The reports for archives nested by `names`, each holding one file.
pub open spec fn nested_replies(source: Seq<char>, names: Seq<Seq<char>>) -> Seq<Reply>
    decreases names.len(),
{
    if names.len() == 0 {
        Seq::empty()
    } else {
        nested_replies(source, names.drop_last()) + seq![
            Reply::Kind(FileKind::Archive),
            Reply::Unpacked(seq![nested_leaf(source, names)]),
        ]
    }
}

proof fn lemma_nested_descent(source: Seq<char>, names: Seq<Seq<char>>)
    ensures
        run(start(source), nested_replies(source, names)) == (ExpansionModel {
            origin: source,
            pending: Seq::empty(),
            current: AwaitingModel::Kind(nested_leaf(source, names)),
            leaves: Seq::empty(),
            failures: Seq::empty(),
        }),
    decreases names.len(),
{
    if names.len() > 0 {
        let init = names.drop_last();
        lemma_nested_descent(source, init);
        let p = nested_leaf(source, init);
        let q = nested_leaf(source, names);
        let m = run(start(source), nested_replies(source, init));
        lemma_run_append(
            start(source),
            nested_replies(source, init),
            seq![Reply::Kind(FileKind::Archive), Reply::Unpacked(seq![q])],
        );
        lemma_run_two(m, Reply::Kind(FileKind::Archive), Reply::Unpacked(seq![q]));
        assert(first_fresh(p, Seq::empty(), Seq::empty(), 0) == Some(0u64));
        let d = dest_text(p, 0);
        assert(q.take(d.push('/').len() as int) =~= d.push('/'));
        assert(seq![q][0] == q);
        lemma_accepted_all(seq![q], d);
        assert(seq![q] + Seq::<Seq<char>>::empty() =~= seq![q]);
        assert(seq![q].drop_first() =~= Seq::<Seq<char>>::empty());
        assert(Seq::<FailureModel>::empty() + Seq::<FailureModel>::empty() =~= Seq::<FailureModel>::empty());
    }
}

/// Archives nested to any depth, each holding the next, expand to the one
/// innermost file.
pub proof fn lemma_nested_archives(source: Seq<char>, names: Seq<Seq<char>>, k: FileKind)
    requires
        k != FileKind::Archive,
    ensures
        ({
            let r = run(start(source), nested_replies(source, names).push(Reply::Kind(k)));
            &&& r.current is Nothing
            &&& r.leaves == seq![nested_leaf(source, names)]
            &&& r.failures.len() == 0
        }),
{
    lemma_nested_descent(source, names);
    let m = run(start(source), nested_replies(source, names));
    lemma_run_append(start(source), nested_replies(source, names), seq![Reply::Kind(k)]);
    assert(nested_replies(source, names).push(Reply::Kind(k)) =~= nested_replies(source, names)
        + seq![Reply::Kind(k)]);
    lemma_run_one(m, Reply::Kind(k));
    assert(feed(m, Reply::Kind(k)).leaves =~= seq![nested_leaf(source, names)]);
}

/// `x` stands in the way of the directory numbered `n` for the archive at
/// `p`: it is that directory or lies below it.
spec fn blocks(x: Seq<char>, p: Seq<char>, n: u64) -> bool {
    x == dest_text(p, n) || inside(x, dest_text(p, n))
}

/// One path stands in the way of one directory number at most.
proof fn lemma_blocks_once(x: Seq<char>, p: Seq<char>, n1: u64, n2: u64)
    requires
        blocks(x, p, n1),
        blocks(x, p, n2),
    ensures
        n1 == n2,
{
    let d1 = dest_text(p, n1);
    let d2 = dest_text(p, n2);
    lemma_hex_text_len(n1 as nat, ID_DIGITS as nat);
    lemma_hex_text_len(n2 as nat, ID_DIGITS as nat);
    let len = d1.len() as int;
    assert(d2.len() == len);
    if x == d1 {
        assert(x.take(len) =~= d1);
    } else {
        assert(x.take(len + 1) == d1.push('/'));
        assert(x.take(len) =~= d1.push('/').take(len));
        assert(d1.push('/').take(len) =~= d1);
    }
    if x == d2 {
        assert(x.take(len) =~= d2);
    } else {
        assert(x.take(len + 1) == d2.push('/'));
        assert(x.take(len) =~= d2.push('/').take(len));
        assert(d2.push('/').take(len) =~= d2);
    }
    let start: int = p.len() as int + 1;
    assert(hex_text(n1 as nat, ID_DIGITS as nat) =~= d1.subrange(start, start + 16));
    assert(hex_text(n2 as nat, ID_DIGITS as nat) =~= d2.subrange(start, start + 16));
    lemma_u64_fits_id_digits(n1);
    lemma_u64_fits_id_digits(n2);
    lemma_hex_text_injective(n1 as nat, n2 as nat, ID_DIGITS as nat);
}

/// With one file pending and one leaf, some directory is fresh for an
/// archive.
proof fn lemma_fresh_found(p: Seq<char>, x: Seq<char>, y: Seq<char>)
    ensures
        first_fresh(p, seq![x], seq![y], 0) is Some,
{
    let pend = seq![x];
    let lv = seq![y];
    assert(pend[0] == x && lv[0] == y);
    if first_fresh(p, pend, lv, 0) is None {
        assert(first_fresh(p, pend, lv, 0) == first_fresh(p, pend, lv, 1));
        assert(first_fresh(p, pend, lv, 1) == first_fresh(p, pend, lv, 2));
        assert(!(fresh_for(dest_text(p, 0), pend) && fresh_for(dest_text(p, 0), lv)));
        assert(!(fresh_for(dest_text(p, 1), pend) && fresh_for(dest_text(p, 1), lv)));
        assert(!(fresh_for(dest_text(p, 2), pend) && fresh_for(dest_text(p, 2), lv)));
        assert(blocks(x, p, 0) || blocks(y, p, 0));
        assert(blocks(x, p, 1) || blocks(y, p, 1));
        assert(blocks(x, p, 2) || blocks(y, p, 2));
        if blocks(x, p, 0) {
            if blocks(x, p, 1) {
                lemma_blocks_once(x, p, 0, 1);
            } else if blocks(x, p, 2) {
                lemma_blocks_once(x, p, 0, 2);
            } else {
                lemma_blocks_once(y, p, 1, 2);
            }
        } else {
            if blocks(y, p, 1) {
                lemma_blocks_once(y, p, 0, 1);
            } else if blocks(y, p, 2) {
                lemma_blocks_once(y, p, 0, 2);
            } else {
                lemma_blocks_once(x, p, 1, 2);
            }
        }
    }
}

/// One archive member that fails to unpack costs only its own branch: its
/// plain siblings are still found, and the failure names it.
pub proof fn lemma_failed_member(
    source: Seq<char>,
    a: Seq<char>,
    b: Seq<char>,
    c: Seq<char>,
    cause: Seq<char>,
    k: FileKind,
)
    requires
        inside(a, dest_text(source, 0)),
        inside(b, dest_text(source, 0)),
        inside(c, dest_text(source, 0)),
        a != b && b != c && a != c,
        k != FileKind::Archive,
    ensures
        ({
            let r = run(
                start(source),
                seq![
                    Reply::Kind(FileKind::Archive),
                    Reply::Unpacked(seq![a, b, c]),
                    Reply::Kind(k),
                    Reply::Kind(FileKind::Archive),
                    Reply::Failed(FailureStage::Unpack, cause),
                    Reply::Kind(k),
                ],
            );
            &&& r.current is Nothing
            &&& r.leaves == seq![a, c]
            &&& r.failures == seq![FailureModel { path: b, stage: FailureStage::Unpack, cause }]
        }),
{
    let ms = seq![a, b, c];
    assert(ms[0] == a && ms[1] == b && ms[2] == c);
    assert(first_fresh(source, Seq::empty(), Seq::empty(), 0) == Some(0u64));
    lemma_accepted_all(ms, dest_text(source, 0));
    let r1 = seq![Reply::Kind(FileKind::Archive), Reply::Unpacked(ms)];
    let r2 = seq![Reply::Kind(k), Reply::Kind(FileKind::Archive)];
    let r3 = seq![Reply::Failed(FailureStage::Unpack, cause), Reply::Kind(k)];
    assert(r1 + r2 + r3 =~= seq![
        Reply::Kind(FileKind::Archive),
        Reply::Unpacked(seq![a, b, c]),
        Reply::Kind(k),
        Reply::Kind(FileKind::Archive),
        Reply::Failed(FailureStage::Unpack, cause),
        Reply::Kind(k),
    ]);
    let m0 = start(source);
    lemma_run_append(m0, r1 + r2, r3);
    lemma_run_append(m0, r1, r2);
    lemma_run_two(m0, r1[0], r1[1]);
    let m2 = run(m0, r1);
    assert(ms + Seq::<Seq<char>>::empty() =~= ms);
    assert(ms.drop_first() =~= seq![b, c]);
    assert(Seq::<FailureModel>::empty() + Seq::<FailureModel>::empty() =~= Seq::<FailureModel>::empty());
    assert(m2.current == AwaitingModel::Kind(a));
    assert(m2.pending == seq![b, c]);
    lemma_run_two(m2, r2[0], r2[1]);
    let m3 = feed(m2, r2[0]);
    assert(seq![b, c].drop_first() =~= seq![c]);
    assert(m3.pending == seq![c]);
    assert(m3.leaves =~= seq![a]);
    lemma_fresh_found(b, c, a);
    let m4 = run(m2, r2);
    assert(m4.current is Members);
    lemma_run_two(m4, r3[0], r3[1]);
    let m6 = run(m4, r3);
    assert(seq![c].drop_first() =~= Seq::<Seq<char>>::empty());
    assert(m6.leaves =~= seq![a, c]);
    assert(m6.failures =~= seq![FailureModel { path: b, stage: FailureStage::Unpack, cause }]);
}

proof fn lemma_prefix_trans(s: Seq<char>, mid: Seq<char>, pre: Seq<char>)
    requires
        has_prefix(s, mid),
        has_prefix(mid, pre),
    ensures
        has_prefix(s, pre),
{
    assert(s.take(pre.len() as int) =~= mid.take(pre.len() as int));
}

/// Every path that the expansion holds starts with `pre`, and so does the
/// directory it waits on.
pub open spec fn within(m: ExpansionModel, pre: Seq<char>) -> bool {
    &&& forall|i: int| 0 <= i < m.pending.len() ==> has_prefix(#[trigger] m.pending[i], pre)
    &&& forall|i: int| 0 <= i < m.leaves.len() ==> has_prefix(#[trigger] m.leaves[i], pre)
    &&& match m.current {
        AwaitingModel::Nothing => true,
        AwaitingModel::Kind(p) => has_prefix(p, pre),
        AwaitingModel::Members(_, d) => has_prefix(d, pre),
    }
}

proof fn lemma_feed_within(m: ExpansionModel, r: Reply, pre: Seq<char>)
    requires
        within(m, pre),
    ensures
        within(feed(m, r), pre),
{
    match m.current {
        AwaitingModel::Kind(p) => {
            if let Reply::Kind(k) = r {
                if k == FileKind::Archive && first_fresh(p, m.pending, m.leaves, 0) is Some {
                    let d = dest_text(p, first_fresh(p, m.pending, m.leaves, 0)->0);
                    assert(d.take(p.len() as int) =~= p);
                    lemma_prefix_trans(d, p, pre);
                }
                let lv = m.leaves.push(p);
                assert forall|i: int| 0 <= i < lv.len() implies has_prefix(#[trigger] lv[i], pre) by {
                    if i < m.leaves.len() {
                        assert(lv[i] == m.leaves[i]);
                    }
                }
            }
        },
        AwaitingModel::Members(p, d) => {
            if let Reply::Unpacked(ms) = r {
                let acc = accepted(ms, d);
                lemma_accepted_distinct(ms, d);
                let pend = acc + m.pending;
                assert forall|i: int| 0 <= i < pend.len() implies has_prefix(#[trigger] pend[i], pre) by {
                    if i < acc.len() {
                        assert(inside(acc[i], d));
                        assert(acc[i].take(d.len() as int) =~= acc[i].take(d.len() as int + 1).take(d.len() as int));
                        assert(d.push('/').take(d.len() as int) =~= d);
                        lemma_prefix_trans(acc[i], d, pre);
                    } else {
                        assert(pend[i] == m.pending[i - acc.len()]);
                    }
                }
            }
        },
        AwaitingModel::Nothing => {},
    }
}

/// However the caller answers, every path and every unpack directory of an
/// expansion keeps the prefix that they all had.
pub proof fn lemma_run_within(m: ExpansionModel, rs: Seq<Reply>, pre: Seq<char>)
    requires
        within(m, pre),
    ensures
        within(run(m, rs), pre),
        run(m, rs).origin == m.origin,
    decreases rs.len(),
{
    if rs.len() > 0 {
        lemma_feed_within(m, rs[0], pre);
        lemma_run_within(feed(m, rs[0]), rs.drop_first(), pre);
    }
}

/// Every leaf that an archive yields lies below that archive's own
/// directory, and so does every directory that a nested archive is
/// unpacked into, whatever the caller reports afterwards.
pub proof fn lemma_leaves_under_archive_dir(source: Seq<char>, members: Seq<Seq<char>>, rs: Seq<Reply>)
    ensures
        ({
            let d0 = dest_text(source, 0);
            let r = run(start(source), seq![Reply::Kind(FileKind::Archive), Reply::Unpacked(members)] + rs);
            &&& forall|i: int| 0 <= i < r.leaves.len() ==> inside(#[trigger] r.leaves[i], d0)
            &&& r.current matches AwaitingModel::Members(_, d) ==> inside(d, d0)
        }),
{
    let d0 = dest_text(source, 0);
    let head = seq![Reply::Kind(FileKind::Archive), Reply::Unpacked(members)];
    assert(first_fresh(source, Seq::empty(), Seq::empty(), 0) == Some(0u64));
    lemma_run_two(start(source), head[0], head[1]);
    lemma_run_append(start(source), head, rs);
    let m2 = run(start(source), head);
    lemma_accepted_distinct(members, d0);
    assert(accepted(members, d0) + Seq::<Seq<char>>::empty() =~= accepted(members, d0));
    assert(within(m2, d0.push('/'))) by {
        let acc = accepted(members, d0);
        if acc.len() > 0 {
            assert forall|i: int| 0 <= i < acc.drop_first().len() implies has_prefix(
                #[trigger] acc.drop_first()[i],
                d0.push('/'),
            ) by {
                assert(acc.drop_first()[i] == acc[i + 1]);
            }
        }
    }
    lemma_run_within(m2, rs, d0.push('/'));
}

/// The origin is no longer held: not a leaf, not pending, not being sniffed.
spec fn origin_gone(m: ExpansionModel) -> bool {
    &&& within(m, m.origin)
    &&& forall|i: int| 0 <= i < m.leaves.len() ==> #[trigger] m.leaves[i] != m.origin
    &&& forall|i: int| 0 <= i < m.pending.len() ==> #[trigger] m.pending[i] != m.origin
    &&& m.current != AwaitingModel::Kind(m.origin)
}

proof fn lemma_feed_origin_gone(m: ExpansionModel, r: Reply)
    requires
        origin_gone(m),
    ensures
        origin_gone(feed(m, r)),
{
    lemma_feed_within(m, r, m.origin);
    let o = m.origin;
    match m.current {
        AwaitingModel::Kind(p) => {
            let lv = m.leaves.push(p);
            assert forall|i: int| 0 <= i < lv.len() implies #[trigger] lv[i] != o by {
                if i < m.leaves.len() {
                    assert(lv[i] == m.leaves[i]);
                }
            }
            if m.pending.len() > 0 {
                assert(m.pending[0] != o);
                assert forall|i: int| 0 <= i < m.pending.drop_first().len() implies #[trigger] m.pending.drop_first()[i] != o by {
                    assert(m.pending.drop_first()[i] == m.pending[i + 1]);
                }
            }
        },
        AwaitingModel::Members(p, d) => {
            let pend = match r {
                Reply::Unpacked(ms) => accepted(ms, d) + m.pending,
                _ => m.pending,
            };
            if let Reply::Unpacked(ms) = r {
                let acc = accepted(ms, d);
                lemma_accepted_distinct(ms, d);
                assert forall|i: int| 0 <= i < pend.len() implies #[trigger] pend[i] != o by {
                    if i < acc.len() {
                        assert(inside(acc[i], d));
                        assert(acc[i].len() > d.len());
                    } else {
                        assert(pend[i] == m.pending[i - acc.len()]);
                    }
                }
            }
            if pend.len() > 0 {
                assert(pend[0] != o);
                assert forall|i: int| 0 <= i < pend.drop_first().len() implies #[trigger] pend.drop_first()[i] != o by {
                    assert(pend.drop_first()[i] == pend[i + 1]);
                }
            }
        },
        AwaitingModel::Nothing => {},
    }
}

proof fn lemma_run_origin_gone(m: ExpansionModel, rs: Seq<Reply>)
    requires
        origin_gone(m),
    ensures
        origin_gone(run(m, rs)),
        run(m, rs).origin == m.origin,
    decreases rs.len(),
{
    if rs.len() > 0 {
        lemma_feed_origin_gone(m, rs[0]);
        lemma_run_origin_gone(feed(m, rs[0]), rs.drop_first());
    }
}

/// An archive never comes out as a leaf of its own expansion, at any
/// nesting and whatever the caller reports after classifying it.
pub proof fn lemma_archive_never_leaf(source: Seq<char>, rs: Seq<Reply>)
    ensures
        !run(start(source), seq![Reply::Kind(FileKind::Archive)] + rs).leaves.contains(source),
{
    let m1 = feed(start(source), Reply::Kind(FileKind::Archive));
    assert(first_fresh(source, Seq::empty(), Seq::empty(), 0) == Some(0u64));
    assert(source.take(source.len() as int) =~= source);
    assert(within(start(source), source));
    lemma_feed_within(start(source), Reply::Kind(FileKind::Archive), source);
    assert(origin_gone(m1));
    lemma_run_append(start(source), seq![Reply::Kind(FileKind::Archive)], rs);
    lemma_run_one(start(source), Reply::Kind(FileKind::Archive));
    lemma_run_origin_gone(m1, rs);
    let r = run(m1, rs);
    if r.leaves.contains(source) {
        let i = choose|i: int| 0 <= i < r.leaves.len() && r.leaves[i] == source;
        assert(r.leaves[i] != r.origin);
    }
}

/// The paths held by an expansion are all different: leaves, pending files
/// and the file being sniffed.
spec fn all_distinct(m: ExpansionModel) -> bool {
    &&& orderly(m)
    &&& m.leaves.no_duplicates()
    &&& m.pending.no_duplicates()
    &&& forall|i: int, j: int| 0 <= i < m.leaves.len() && 0 <= j < m.pending.len() ==> #[trigger] m.leaves[i] != #[trigger] m.pending[j]
    &&& m.current matches AwaitingModel::Kind(p) ==> (forall|i: int| 0 <= i < m.leaves.len() ==> #[trigger] m.leaves[i] != p)
        && (forall|i: int| 0 <= i < m.pending.len() ==> #[trigger] m.pending[i] != p)
}

proof fn lemma_settle_distinct(m: ExpansionModel)
    requires
        m.current is Nothing,
        m.leaves.no_duplicates(),
        m.pending.no_duplicates(),
        forall|i: int, j: int| 0 <= i < m.leaves.len() && 0 <= j < m.pending.len() ==> #[trigger] m.leaves[i] != #[trigger] m.pending[j],
    ensures
        settle(m).leaves.no_duplicates(),
        settle(m).pending.no_duplicates(),
        forall|i: int, j: int| 0 <= i < settle(m).leaves.len() && 0 <= j < settle(m).pending.len() ==> #[trigger] settle(m).leaves[i] != #[trigger] settle(m).pending[j],
        settle(m).current matches AwaitingModel::Kind(p) ==> (forall|i: int| 0 <= i < settle(m).leaves.len() ==> #[trigger] settle(m).leaves[i] != p)
            && (forall|i: int| 0 <= i < settle(m).pending.len() ==> #[trigger] settle(m).pending[i] != p),
{
    if m.pending.len() > 0 {
        let rest = m.pending.drop_first();
        assert forall|i: int, j: int| 0 <= i < m.leaves.len() && 0 <= j < rest.len() implies #[trigger] m.leaves[i] != #[trigger] rest[j] by {
            assert(rest[j] == m.pending[j + 1]);
        }
        assert forall|i: int, j: int| 0 <= i < rest.len() && 0 <= j < rest.len() && i != j implies rest[i] != rest[j] by {
            assert(rest[i] == m.pending[i + 1] && rest[j] == m.pending[j + 1]);
        }
        assert forall|i: int| 0 <= i < rest.len() implies #[trigger] rest[i] != m.pending[0] by {
            assert(rest[i] == m.pending[i + 1]);
        }
        assert forall|i: int| 0 <= i < m.leaves.len() implies #[trigger] m.leaves[i] != m.pending[0] by {
            assert(m.leaves[i] != m.pending[0]);
        }
    }
}

proof fn lemma_feed_distinct(m: ExpansionModel, r: Reply)
    requires
        all_distinct(m),
    ensures
        all_distinct(feed(m, r)),
{
    lemma_feed_orderly(m, r);
    match m.current {
        AwaitingModel::Kind(p) => {
            if let Reply::Kind(k) = r {
                if k != FileKind::Archive {
                    let m1 = ExpansionModel { current: AwaitingModel::Nothing, leaves: m.leaves.push(p), ..m };
                    let lv = m1.leaves;
                    assert forall|i: int, j: int| 0 <= i < lv.len() && 0 <= j < lv.len() && i != j implies lv[i] != lv[j] by {
                        if i < m.leaves.len() && j < m.leaves.len() {
                            assert(lv[i] == m.leaves[i] && lv[j] == m.leaves[j]);
                        } else if i < m.leaves.len() {
                            assert(lv[i] == m.leaves[i]);
                        } else {
                            assert(lv[j] == m.leaves[j]);
                        }
                    }
                    assert forall|i: int, j: int| 0 <= i < lv.len() && 0 <= j < m.pending.len() implies #[trigger] lv[i] != #[trigger] m.pending[j] by {
                        if i < m.leaves.len() {
                            assert(lv[i] == m.leaves[i]);
                        }
                    }
                    lemma_settle_distinct(m1);
                } else if first_fresh(p, m.pending, m.leaves, 0) is None {
                    lemma_settle_distinct(ExpansionModel {
                        current: AwaitingModel::Nothing,
                        failures: m.failures.push(FailureModel { path: p, stage: FailureStage::NoDestination, cause: Seq::empty() }),
                        ..m
                    });
                }
            }
        },
        AwaitingModel::Members(p, d) => {
            match r {
                Reply::Unpacked(ms) => {
                    let acc = accepted(ms, d);
                    lemma_accepted_distinct(ms, d);
                    let pend = acc + m.pending;
                    assert forall|i: int, j: int| 0 <= i < pend.len() && 0 <= j < pend.len() && i != j implies pend[i] != pend[j] by {
                        if i < acc.len() && j >= acc.len() {
                            assert(pend[j] == m.pending[j - acc.len()]);
                            assert(!inside(m.pending[j - acc.len()], d));
                        } else if j < acc.len() && i >= acc.len() {
                            assert(pend[i] == m.pending[i - acc.len()]);
                            assert(!inside(m.pending[i - acc.len()], d));
                        } else if i >= acc.len() {
                            assert(pend[i] == m.pending[i - acc.len()]);
                            assert(pend[j] == m.pending[j - acc.len()]);
                        }
                    }
                    assert forall|i: int, j: int| 0 <= i < m.leaves.len() && 0 <= j < pend.len() implies #[trigger] m.leaves[i] != #[trigger] pend[j] by {
                        if j < acc.len() {
                            assert(!inside(m.leaves[i], d));
                        } else {
                            assert(pend[j] == m.pending[j - acc.len()]);
                        }
                    }
                    lemma_settle_distinct(ExpansionModel {
                        current: AwaitingModel::Nothing,
                        pending: pend,
                        failures: m.failures + rejected(ms, d),
                        ..m
                    });
                },
                Reply::Failed(stage, cause) => {
                    lemma_settle_distinct(ExpansionModel {
                        current: AwaitingModel::Nothing,
                        failures: m.failures.push(FailureModel { path: p, stage, cause }),
                        ..m
                    });
                },
                _ => {},
            }
        },
        AwaitingModel::Nothing => {},
    }
}

proof fn lemma_run_distinct(m: ExpansionModel, rs: Seq<Reply>)
    requires
        all_distinct(m),
    ensures
        all_distinct(run(m, rs)),
    decreases rs.len(),
{
    if rs.len() > 0 {
        lemma_feed_distinct(m, rs[0]);
        lemma_run_distinct(feed(m, rs[0]), rs.drop_first());
    }
}

/// No file comes out twice as a leaf, whatever the caller reports: every
/// archive is unpacked into a directory that none of the files held lies
/// in, and a listing names each file once.
pub proof fn lemma_leaves_distinct(source: Seq<char>, rs: Seq<Reply>)
    ensures
        run(start(source), rs).leaves.no_duplicates(),
{
    lemma_run_distinct(start(source), rs);
}

/// Files found for one submission lie inside its own scratch directory and
/// never inside the directory of another submission, whatever the caller
/// reports; so does the directory that an archive of it is unpacked into.
pub proof fn lemma_submissions_separate(
    root: Seq<char>,
    a: u64,
    b: u64,
    name: Seq<char>,
    rs: Seq<Reply>,
)
    requires
        a != b,
    ensures
        forall|i: int|
            0 <= i < run(start(submission_source(root, a, name)), rs).leaves.len() ==> {
                let leaf = #[trigger] run(start(submission_source(root, a, name)), rs).leaves[i];
                &&& has_prefix(leaf, submission_dir(root, a).push('/'))
                &&& !has_prefix(leaf, submission_dir(root, b).push('/'))
            },
        run(start(submission_source(root, a, name)), rs).current matches AwaitingModel::Members(_, d)
            ==> has_prefix(d, submission_dir(root, a).push('/')) && !has_prefix(
            d,
            submission_dir(root, b).push('/'),
        ),
{
    let src = submission_source(root, a, name);
    let dir = submission_dir(root, a).push('/');
    assert(src.take(dir.len() as int) =~= dir);
    assert(src.take(src.len() as int) =~= src);
    assert(within(start(src), src));
    lemma_run_within(start(src), rs, src);
    let m = run(start(src), rs);
    assert forall|i: int| 0 <= i < m.leaves.len() implies {
        &&& has_prefix(#[trigger] m.leaves[i], dir)
        &&& !has_prefix(m.leaves[i], submission_dir(root, b).push('/'))
    } by {
        lemma_prefix_trans(m.leaves[i], src, dir);
        lemma_submission_dirs_disjoint(root, a, b, m.leaves[i]);
    }
    if let AwaitingModel::Members(_, d) = m.current {
        lemma_prefix_trans(d, src, dir);
        lemma_submission_dirs_disjoint(root, a, b, d);
    }
}

} // verus!
