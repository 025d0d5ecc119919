use vstd::prelude::*;
use crate::codec::{LocModel, wf_loc, wf_path};
use crate::text::split_on;
use crate::resolver::{
    CanonModel, Config, OutcomeModel, chain_on_disk, chain_points, ends_with_seg, fold_case,
    has_char, history_spec, join_all, join_one, match_single, multi_hit, norm, on_disk,
    probe_spec, probes_multi, probes_single, resolve_spec, scan_multi, scan_single, segments,
    sep_norm,
};
use crate::session::{
    apply_hit, apply_outcome, bump, drop_matching, has_match, lemma_apply_hit_at,
    lemma_apply_hit_none, norm_eq, outcome_mutates,
};

verus! {

/// The stored paths, in order, with the counts forgotten.
pub open spec fn paths_of(rs: Seq<LocModel>) -> Seq<Seq<char>> {
    rs.map_values(|l: LocModel| l.path)
}

/// The single-segment scan reads only the stored paths, never the counts.
pub proof fn lemma_scan_single_paths(
    rs1: Seq<LocModel>,
    rs2: Seq<LocModel>,
    seg: Seq<char>,
    ci: bool,
)
    requires
        paths_of(rs1) == paths_of(rs2),
    ensures
        scan_single(rs1, seg, ci) == scan_single(rs2, seg, ci),
    decreases rs1.len(),
{
    assert(paths_of(rs1).len() == rs1.len());
    assert(paths_of(rs2).len() == rs2.len());
    if rs1.len() > 0 {
        assert(rs1[0].path == paths_of(rs1)[0]);
        assert(rs2[0].path == paths_of(rs2)[0]);
        assert(paths_of(rs1.drop_first()) =~= paths_of(rs1).drop_first());
        assert(paths_of(rs2.drop_first()) =~= paths_of(rs2).drop_first());
        lemma_scan_single_paths(rs1.drop_first(), rs2.drop_first(), seg, ci);
    }
}

/// The multi-segment scan reads only the stored paths, never the counts.
pub proof fn lemma_scan_multi_paths(
    rs1: Seq<LocModel>,
    rs2: Seq<LocModel>,
    first: Seq<char>,
    rest: Seq<Seq<char>>,
    ci: bool,
    fs: Seq<Seq<char>>,
)
    requires
        paths_of(rs1) == paths_of(rs2),
    ensures
        scan_multi(rs1, first, rest, ci, fs) == scan_multi(rs2, first, rest, ci, fs),
    decreases rs1.len(),
{
    assert(paths_of(rs1).len() == rs1.len());
    assert(paths_of(rs2).len() == rs2.len());
    if rs1.len() > 0 {
        assert(rs1[0].path == paths_of(rs1)[0]);
        assert(rs2[0].path == paths_of(rs2)[0]);
        assert(paths_of(rs1.drop_first()) =~= paths_of(rs1).drop_first());
        assert(paths_of(rs2.drop_first()) =~= paths_of(rs2).drop_first());
        lemma_scan_multi_paths(rs1.drop_first(), rs2.drop_first(), first, rest, ci, fs);
    }
}

/// A record appended at the end never changes an already-successful
/// single-segment scan.
pub proof fn lemma_scan_single_push(rs: Seq<LocModel>, x: LocModel, seg: Seq<char>, ci: bool)
    requires
        scan_single(rs, seg, ci) is Some,
    ensures
        scan_single(rs.push(x), seg, ci) == scan_single(rs, seg, ci),
    decreases rs.len(),
{
    assert(rs.len() > 0);
    assert(rs.push(x)[0] == rs[0]);
    assert(rs.push(x).drop_first() =~= rs.drop_first().push(x));
    if !match_single(rs[0], seg, ci) {
        lemma_scan_single_push(rs.drop_first(), x, seg, ci);
    }
}

/// A record appended at the end never changes an already-successful
/// multi-segment scan.
pub proof fn lemma_scan_multi_push(
    rs: Seq<LocModel>,
    x: LocModel,
    first: Seq<char>,
    rest: Seq<Seq<char>>,
    ci: bool,
    fs: Seq<Seq<char>>,
)
    requires
        scan_multi(rs, first, rest, ci, fs) is Some,
    ensures
        scan_multi(rs.push(x), first, rest, ci, fs) == scan_multi(rs, first, rest, ci, fs),
    decreases rs.len(),
{
    assert(rs.len() > 0);
    assert(rs.push(x)[0] == rs[0]);
    assert(rs.push(x).drop_first() =~= rs.drop_first().push(x));
    if !multi_hit(rs[0], first, rest, ci, fs) {
        lemma_scan_multi_push(rs.drop_first(), x, first, rest, ci, fs);
    }
}

/// What a successful single-segment scan returns: the path of the first
/// matching record, with no earlier record matching.
pub proof fn lemma_scan_single_first(rs: Seq<LocModel>, seg: Seq<char>, ci: bool)
    ensures
        match scan_single(rs, seg, ci) {
            Some(p) => exists|i: int|
                {
                    &&& 0 <= i < rs.len()
                    &&& #[trigger] rs[i].path == p
                    &&& match_single(rs[i], seg, ci)
                    &&& forall|k: int| 0 <= k < i ==> !match_single(rs[k], seg, ci)
                },
            None => forall|k: int| 0 <= k < rs.len() ==> !match_single(rs[k], seg, ci),
        },
    decreases rs.len(),
{
    if rs.len() > 0 && !match_single(rs[0], seg, ci) {
        lemma_scan_single_first(rs.drop_first(), seg, ci);
        match scan_single(rs.drop_first(), seg, ci) {
            Some(p) => {
                let j = choose|j: int|
                    {
                        &&& 0 <= j < rs.drop_first().len()
                        &&& #[trigger] rs.drop_first()[j].path == p
                        &&& match_single(rs.drop_first()[j], seg, ci)
                        &&& forall|k: int|
                            0 <= k < j ==> !match_single(rs.drop_first()[k], seg, ci)
                    };
                assert(rs[j + 1].path == p);
                assert forall|k: int| 0 <= k < j + 1 implies !match_single(rs[k], seg, ci) by {
                    if k > 0 {
                        assert(rs.drop_first()[k - 1] == rs[k]);
                    }
                }
            },
            None => {
                assert forall|k: int| 0 <= k < rs.len() implies !match_single(
                    rs[k],
                    seg,
                    ci,
                ) by {
                    if k > 0 {
                        assert(rs.drop_first()[k - 1] == rs[k]);
                    }
                }
            },
        }
    }
}

/// What a successful multi-segment scan returns: the joined path of the
/// first record that carries the fragment, with no earlier record doing
/// so; the joined path itself exists in the snapshot.
pub proof fn lemma_scan_multi_first(
    rs: Seq<LocModel>,
    first: Seq<char>,
    rest: Seq<Seq<char>>,
    ci: bool,
    fs: Seq<Seq<char>>,
)
    ensures
        match scan_multi(rs, first, rest, ci, fs) {
            Some(p) => on_disk(fs, p) && exists|i: int|
                {
                    &&& 0 <= i < rs.len()
                    &&& #[trigger] multi_hit(rs[i], first, rest, ci, fs)
                    &&& join_all(rs[i].path, rest) == p
                    &&& forall|k: int| 0 <= k < i ==> !multi_hit(rs[k], first, rest, ci, fs)
                },
            None => forall|k: int|
                0 <= k < rs.len() ==> !multi_hit(#[trigger] rs[k], first, rest, ci, fs),
        },
    decreases rs.len(),
{
    if rs.len() > 0 {
        if multi_hit(rs[0], first, rest, ci, fs) {
            assert(forall|k: int| 0 <= k < 0 ==> !multi_hit(rs[k], first, rest, ci, fs));
        } else {
            lemma_scan_multi_first(rs.drop_first(), first, rest, ci, fs);
            match scan_multi(rs.drop_first(), first, rest, ci, fs) {
                Some(p) => {
                    let j = choose|j: int|
                        {
                            &&& 0 <= j < rs.drop_first().len()
                            &&& #[trigger] multi_hit(rs.drop_first()[j], first, rest, ci, fs)
                            &&& join_all(rs.drop_first()[j].path, rest) == p
                            &&& forall|k: int|
                                0 <= k < j ==> !multi_hit(
                                    rs.drop_first()[k],
                                    first,
                                    rest,
                                    ci,
                                    fs,
                                )
                        };
                    assert(rs[j + 1] == rs.drop_first()[j]);
                    assert forall|k: int| 0 <= k < j + 1 implies !multi_hit(
                        rs[k],
                        first,
                        rest,
                        ci,
                        fs,
                    ) by {
                        if k > 0 {
                            assert(rs.drop_first()[k - 1] == rs[k]);
                        }
                    }
                },
                None => {
                    assert forall|k: int| 0 <= k < rs.len() implies !multi_hit(
                        rs[k],
                        first,
                        rest,
                        ci,
                        fs,
                    ) by {
                        if k > 0 {
                            assert(rs.drop_first()[k - 1] == rs[k]);
                        }
                    }
                },
            }
        }
    }
}

/// A history hit always names a path the snapshot says exists: the
/// resolver never hands out a remembered path without re-checking it,
/// and a multi-segment fragment is re-joined step by step on disk.
pub proof fn lemma_history_hit_on_disk(
    f: Seq<char>,
    rs: Seq<LocModel>,
    ci: bool,
    fs: Seq<Seq<char>>,
)
    ensures
        forall|p: Seq<char>|
            history_spec(f, rs, ci, fs) == OutcomeModel::HistoryHit(p) ==> on_disk(fs, p),
{
    let nf = sep_norm(f);
    if has_char(nf, '/') {
        let segs = segments(nf);
        if segs.len() > 0 {
            lemma_scan_multi_first(rs, fold_case(segs[0], ci), segs.drop_first(), ci, fs);
        }
    }
}

/// A dead entry is always one of the stored paths, it is indeed absent
/// from the snapshot, and pruning it is a real mutation (the store is
/// rewritten exactly once).
pub proof fn lemma_dead_entry(
    cfg: Config,
    f: Seq<char>,
    rs: Seq<LocModel>,
    direct: CanonModel,
    drive: Option<Seq<char>>,
    fs: Seq<Seq<char>>,
)
    ensures
        forall|p: Seq<char>|
            resolve_spec(cfg, f, rs, direct, drive, fs) == OutcomeModel::DeadEntry(p) ==> {
                &&& !on_disk(fs, p)
                &&& exists|i: int| 0 <= i < rs.len() && #[trigger] rs[i].path == p
                &&& apply_outcome(rs, OutcomeModel::DeadEntry(p), cfg.case_insensitive)
                    == drop_matching(rs, p, cfg.case_insensitive)
                &&& outcome_mutates(rs, OutcomeModel::DeadEntry(p), cfg.case_insensitive)
            },
{
    let ci = cfg.case_insensitive;
    assert forall|p: Seq<char>|
        resolve_spec(cfg, f, rs, direct, drive, fs) == OutcomeModel::DeadEntry(p) implies {
        &&& !on_disk(fs, p)
        &&& exists|i: int| 0 <= i < rs.len() && #[trigger] rs[i].path == p
        &&& apply_outcome(rs, OutcomeModel::DeadEntry(p), ci) == drop_matching(rs, p, ci)
        &&& outcome_mutates(rs, OutcomeModel::DeadEntry(p), ci)
    } by {
        // only the single-segment history rule yields a dead entry
        let nf = sep_norm(f);
        assert(!has_char(nf, '/') || !(history_spec(f, rs, ci, fs) is DeadEntry));
        lemma_scan_single_first(rs, fold_case(nf, ci), ci);
        let i = choose|i: int|
            {
                &&& 0 <= i < rs.len()
                &&& #[trigger] rs[i].path == p
                &&& match_single(rs[i], fold_case(nf, ci), ci)
                &&& forall|k: int| 0 <= k < i ==> !match_single(rs[k], fold_case(nf, ci), ci)
            };
        assert(norm_eq(rs[i].path, p, ci));
        assert(has_match(rs, p, ci));
    }
}

/// A rejected file comes only from direct canonicalization, and its
/// mutation prunes exactly the records naming the file.
pub proof fn lemma_file_rejection(
    cfg: Config,
    f: Seq<char>,
    rs: Seq<LocModel>,
    direct: CanonModel,
    drive: Option<Seq<char>>,
    fs: Seq<Seq<char>>,
)
    ensures
        forall|p: Seq<char>|
            resolve_spec(cfg, f, rs, direct, drive, fs) == OutcomeModel::FileRejected(p)
                <==> direct == CanonModel::File(p),
        forall|p: Seq<char>|
            apply_outcome(rs, OutcomeModel::FileRejected(p), cfg.case_insensitive)
                == drop_matching(rs, p, cfg.case_insensitive),
{
}

/// Resolution never reads the usage counts: only the stored paths, in
/// their stored order, decide the outcome. In particular the first
/// matching record wins regardless of any higher count stored later.
pub proof fn lemma_counts_never_decide(
    cfg: Config,
    f: Seq<char>,
    rs1: Seq<LocModel>,
    rs2: Seq<LocModel>,
    direct: CanonModel,
    drive: Option<Seq<char>>,
    fs: Seq<Seq<char>>,
)
    requires
        paths_of(rs1) == paths_of(rs2),
    ensures
        resolve_spec(cfg, f, rs1, direct, drive, fs) == resolve_spec(
            cfg,
            f,
            rs2,
            direct,
            drive,
            fs,
        ),
{
    let ci = cfg.case_insensitive;
    let nf = sep_norm(f);
    if has_char(nf, '/') {
        let segs = segments(nf);
        if segs.len() > 0 {
            lemma_scan_multi_paths(rs1, rs2, fold_case(segs[0], ci), segs.drop_first(), ci, fs);
        }
    } else {
        lemma_scan_single_paths(rs1, rs2, fold_case(nf, ci), ci);
    }
}

} // verus!

verus! {

/// The path a successful outcome hands to the caller.
pub open spec fn hit_path(o: OutcomeModel) -> Seq<char> {
    match o {
        OutcomeModel::DirectHit(p) => p,
        OutcomeModel::HistoryHit(p) => p,
        OutcomeModel::DriveRoot(p) => p,
        OutcomeModel::DeadEntry(p) => p,
        OutcomeModel::FileRejected(p) => p,
        OutcomeModel::DriveUnavailable(p) => p,
        OutcomeModel::NotFound => Seq::empty(),
    }
}

/// After a hit is applied, some record names the hit path.
pub proof fn lemma_apply_hit_has_match(rs: Seq<LocModel>, p: Seq<char>, ci: bool)
    ensures
        has_match(apply_hit(rs, p, ci), p, ci),
    decreases rs.len(),
{
    let out = apply_hit(rs, p, ci);
    if rs.len() == 0 {
        assert(out[0].path == p);
        assert(norm_eq(out[0].path, p, ci));
    } else if norm_eq(rs[0].path, p, ci) {
        assert(out[0] == bump(rs[0]));
        assert(norm_eq(out[0].path, p, ci));
    } else {
        lemma_apply_hit_has_match(rs.drop_first(), p, ci);
        let sub = apply_hit(rs.drop_first(), p, ci);
        let i = choose|i: int| 0 <= i < sub.len() && norm_eq(sub[i].path, p, ci);
        assert(out[i + 1] == sub[i]);
        assert(norm_eq(out[i + 1].path, p, ci));
    }
}

/// When some record already names the hit path, applying the hit keeps
/// every stored path and the set's length: only a count moves.
pub proof fn lemma_apply_hit_paths(rs: Seq<LocModel>, p: Seq<char>, ci: bool)
    requires
        has_match(rs, p, ci),
    ensures
        paths_of(apply_hit(rs, p, ci)) == paths_of(rs),
        apply_hit(rs, p, ci).len() == rs.len(),
    decreases rs.len(),
{
    assert(rs.len() > 0);
    if norm_eq(rs[0].path, p, ci) {
        let out = apply_hit(rs, p, ci);
        assert(out == seq![bump(rs[0])] + rs.drop_first());
        assert forall|i: int| 0 <= i < rs.len() implies paths_of(out)[i] == paths_of(
            rs,
        )[i] by {
            if i == 0 {
                assert(out[0] == bump(rs[0]));
            } else {
                assert(out[i] == rs.drop_first()[i - 1]);
            }
        }
        assert(paths_of(out) =~= paths_of(rs));
    } else {
        assert(has_match(rs.drop_first(), p, ci)) by {
            let i = choose|i: int| 0 <= i < rs.len() && norm_eq(rs[i].path, p, ci);
            assert(rs.drop_first()[i - 1] == rs[i]);
        }
        lemma_apply_hit_paths(rs.drop_first(), p, ci);
        let out = apply_hit(rs, p, ci);
        let sub = apply_hit(rs.drop_first(), p, ci);
        assert(out == seq![rs[0]] + sub);
        assert forall|i: int| 0 <= i < rs.len() implies paths_of(out)[i] == paths_of(
            rs,
        )[i] by {
            if i > 0 {
                assert(out[i] == sub[i - 1]);
                assert(paths_of(sub)[i - 1] == paths_of(rs.drop_first())[i - 1]);
                assert(rs.drop_first()[i - 1] == rs[i]);
            }
        }
        assert(paths_of(out) =~= paths_of(rs));
    }
}

/// Among the records naming `p` there is a first one.
pub proof fn lemma_first_match(rs: Seq<LocModel>, p: Seq<char>, ci: bool)
    requires
        has_match(rs, p, ci),
    ensures
        exists|idx: int|
            {
                &&& 0 <= idx < rs.len()
                &&& norm_eq(#[trigger] rs[idx].path, p, ci)
                &&& forall|k: int| 0 <= k < idx ==> !norm_eq(rs[k].path, p, ci)
            },
    decreases rs.len(),
{
    assert(rs.len() > 0);
    if norm_eq(rs[0].path, p, ci) {
        assert(forall|k: int| 0 <= k < 0 ==> !norm_eq(rs[k].path, p, ci));
    } else {
        assert(has_match(rs.drop_first(), p, ci)) by {
            let i = choose|i: int| 0 <= i < rs.len() && norm_eq(rs[i].path, p, ci);
            assert(rs.drop_first()[i - 1] == rs[i]);
        }
        lemma_first_match(rs.drop_first(), p, ci);
        let idx = choose|idx: int|
            {
                &&& 0 <= idx < rs.drop_first().len()
                &&& norm_eq(#[trigger] rs.drop_first()[idx].path, p, ci)
                &&& forall|k: int| 0 <= k < idx ==> !norm_eq(rs.drop_first()[k].path, p, ci)
            };
        assert(rs[idx + 1] == rs.drop_first()[idx]);
        assert forall|k: int| 0 <= k < idx + 1 implies !norm_eq(rs[k].path, p, ci) by {
            if k > 0 {
                assert(rs.drop_first()[k - 1] == rs[k]);
            }
        }
    }
}

/// Re-resolving the same fragment right away, with the disk unchanged,
/// hands back the very same directory; applying that second hit
/// increments the one record naming it by exactly one more use, moves no
/// other record, and never creates a duplicate record for the path.
pub proof fn lemma_idempotent_reresolution(
    cfg: Config,
    f: Seq<char>,
    rs: Seq<LocModel>,
    direct: CanonModel,
    drive: Option<Seq<char>>,
    fs: Seq<Seq<char>>,
)
    requires
        resolve_spec(cfg, f, rs, direct, drive, fs) is DirectHit || resolve_spec(
            cfg,
            f,
            rs,
            direct,
            drive,
            fs,
        ) is HistoryHit,
    ensures
        ({
            let o = resolve_spec(cfg, f, rs, direct, drive, fs);
            let ci = cfg.case_insensitive;
            let p = hit_path(o);
            let rs1 = apply_hit(rs, p, ci);
            let rs2 = apply_hit(rs1, p, ci);
            &&& resolve_spec(cfg, f, rs1, direct, drive, fs) == o
            &&& has_match(rs1, p, ci)
            &&& rs2.len() == rs1.len()
            &&& paths_of(rs2) == paths_of(rs1)
            &&& exists|idx: int|
                {
                    &&& 0 <= idx < rs1.len()
                    &&& norm_eq(#[trigger] rs1[idx].path, p, ci)
                    &&& forall|k: int| 0 <= k < idx ==> !norm_eq(rs1[k].path, p, ci)
                    &&& rs2 == rs1.update(idx, bump(rs1[idx]))
                }
        }),
{
    let o = resolve_spec(cfg, f, rs, direct, drive, fs);
    let ci = cfg.case_insensitive;
    let p = hit_path(o);
    let rs1 = apply_hit(rs, p, ci);
    let rs2 = apply_hit(rs1, p, ci);

    // the same outcome comes back against the mutated set
    match direct {
        CanonModel::Dir(_) => {},
        CanonModel::File(_) => {},
        CanonModel::Missing => {
            let h = history_spec(f, rs, ci, fs);
            assert(h == o);
            let nf = sep_norm(f);
            if has_char(nf, '/') {
                let segs = segments(nf);
                let first = fold_case(segs[0], ci);
                let rest = segs.drop_first();
                assert(scan_multi(rs, first, rest, ci, fs) == Some(p));
                if has_match(rs, p, ci) {
                    lemma_apply_hit_paths(rs, p, ci);
                    lemma_scan_multi_paths(rs1, rs, first, rest, ci, fs);
                } else {
                    lemma_apply_hit_none(rs, p, ci);
                    lemma_scan_multi_push(rs, LocModel { path: p, count: 1 }, first, rest, ci, fs);
                }
                assert(scan_multi(rs1, first, rest, ci, fs) == Some(p));
            } else {
                let seg = fold_case(nf, ci);
                assert(scan_single(rs, seg, ci) == Some(p));
                assert(on_disk(fs, p));
                if has_match(rs, p, ci) {
                    lemma_apply_hit_paths(rs, p, ci);
                    lemma_scan_single_paths(rs1, rs, seg, ci);
                } else {
                    lemma_apply_hit_none(rs, p, ci);
                    lemma_scan_single_push(rs, LocModel { path: p, count: 1 }, seg, ci);
                }
                assert(scan_single(rs1, seg, ci) == Some(p));
            }
            assert(history_spec(f, rs1, ci, fs) == o);
        },
    }

    // the second application only moves one count
    lemma_apply_hit_has_match(rs, p, ci);
    lemma_apply_hit_paths(rs1, p, ci);
    lemma_first_match(rs1, p, ci);
    let idx = choose|idx: int|
        {
            &&& 0 <= idx < rs1.len()
            &&& norm_eq(#[trigger] rs1[idx].path, p, ci)
            &&& forall|k: int| 0 <= k < idx ==> !norm_eq(rs1[k].path, p, ci)
        };
    lemma_apply_hit_at(rs1, p, ci, idx);
    assert(rs2 =~= rs1.update(idx, bump(rs1[idx])));
}

} // verus!

verus! {

/// The location-set invariant: no two records name the same location
/// under the active case rule, and every record is storable with a count
/// of at least 1.
pub open spec fn wf_set(rs: Seq<LocModel>, ci: bool) -> bool {
    &&& forall|i: int, j: int|
        #![trigger rs[i], rs[j]]
        0 <= i < j < rs.len() ==> !norm_eq(rs[i].path, rs[j].path, ci)
    &&& forall|i: int| 0 <= i < rs.len() ==> (#[trigger] rs[i]).count >= 1 && wf_loc(rs[i])
}

/// Every element of a filtered sequence is an element of the original.
proof fn lemma_filter_member(rs: Seq<LocModel>, pred: spec_fn(LocModel) -> bool, k: int)
    requires
        0 <= k < rs.filter(pred).len(),
    ensures
        exists|i: int| 0 <= i < rs.len() && rs[i] == rs.filter(pred)[k],
    decreases rs.len(),
{
    reveal(Seq::filter);
    assert(rs.len() > 0);
    let front = rs.drop_last();
    let sub = front.filter(pred);
    if pred(rs.last()) && k == sub.len() {
        assert(rs[rs.len() - 1] == rs.filter(pred)[k]);
    } else {
        lemma_filter_member(front, pred, k);
        let i = choose|i: int| 0 <= i < front.len() && front[i] == front.filter(pred)[k];
        assert(rs[i] == rs.filter(pred)[k]);
    }
}

/// Pruning the records that name one path keeps the set invariant.
pub proof fn lemma_drop_matching_wf(rs: Seq<LocModel>, p: Seq<char>, ci: bool)
    requires
        wf_set(rs, ci),
    ensures
        wf_set(drop_matching(rs, p, ci), ci),
    decreases rs.len(),
{
    reveal(Seq::filter);
    let pred = |l: LocModel| !norm_eq(l.path, p, ci);
    let out = rs.filter(pred);
    if rs.len() > 0 {
        let front = rs.drop_last();
        assert(wf_set(front, ci)) by {
            assert(forall|i: int| 0 <= i < front.len() ==> front[i] == rs[i]);
        }
        lemma_drop_matching_wf(front, p, ci);
        let sub = front.filter(pred);
        if pred(rs.last()) {
            assert(out == sub.push(rs.last()));
            assert forall|i: int, j: int|
                #![trigger out[i], out[j]]
                0 <= i < j < out.len() implies !norm_eq(out[i].path, out[j].path, ci) by {
                if j < sub.len() {
                    assert(out[i] == sub[i] && out[j] == sub[j]);
                } else {
                    assert(out[j] == rs.last());
                    assert(out[i] == sub[i]);
                    lemma_filter_member(front, pred, i);
                    let t = choose|t: int| 0 <= t < front.len() && front[t] == sub[i];
                    assert(rs[t] == sub[i]);
                    assert(!norm_eq(rs[t].path, rs[rs.len() - 1].path, ci));
                }
            }
            assert forall|i: int| 0 <= i < out.len() implies (#[trigger] out[i]).count >= 1
                && wf_loc(out[i]) by {
                if i < sub.len() {
                    assert(out[i] == sub[i]);
                } else {
                    assert(out[i] == rs.last());
                }
            }
        } else {
            assert(out == sub);
        }
    }
}

/// Applying a hit keeps the set invariant: an increment moves no path,
/// and a new record is appended only when no record names its path yet.
pub proof fn lemma_apply_hit_wf(rs: Seq<LocModel>, p: Seq<char>, ci: bool)
    requires
        wf_set(rs, ci),
        wf_path(p),
    ensures
        wf_set(apply_hit(rs, p, ci), ci),
{
    let out = apply_hit(rs, p, ci);
    if has_match(rs, p, ci) {
        lemma_first_match(rs, p, ci);
        let idx = choose|idx: int|
            {
                &&& 0 <= idx < rs.len()
                &&& norm_eq(#[trigger] rs[idx].path, p, ci)
                &&& forall|k: int| 0 <= k < idx ==> !norm_eq(rs[k].path, p, ci)
            };
        lemma_apply_hit_at(rs, p, ci, idx);
        assert(out =~= rs.update(idx, bump(rs[idx])));
        assert forall|i: int, j: int|
            #![trigger out[i], out[j]]
            0 <= i < j < out.len() implies !norm_eq(out[i].path, out[j].path, ci) by {
            assert(out[i].path == rs[i].path && out[j].path == rs[j].path);
        }
        assert forall|i: int| 0 <= i < out.len() implies (#[trigger] out[i]).count >= 1
            && wf_loc(out[i]) by {
            if i == idx {
                assert(out[i] == bump(rs[idx]));
            } else {
                assert(out[i] == rs[i]);
            }
        }
    } else {
        lemma_apply_hit_none(rs, p, ci);
        assert(out == rs.push(LocModel { path: p, count: 1 }));
        assert forall|i: int, j: int|
            #![trigger out[i], out[j]]
            0 <= i < j < out.len() implies !norm_eq(out[i].path, out[j].path, ci) by {
            if j == rs.len() {
                assert(out[i] == rs[i]);
                assert(!norm_eq(rs[i].path, p, ci));
            } else {
                assert(out[i] == rs[i] && out[j] == rs[j]);
            }
        }
        assert forall|i: int| 0 <= i < out.len() implies (#[trigger] out[i]).count >= 1
            && wf_loc(out[i]) by {
            if i < rs.len() {
                assert(out[i] == rs[i]);
            }
        }
    }
}

/// Whatever the outcome, the single mutation of a session keeps the
/// location-set invariant, provided the resolved path itself is
/// storable.
pub proof fn lemma_session_preserves_wf(rs: Seq<LocModel>, o: OutcomeModel, ci: bool)
    requires
        wf_set(rs, ci),
        wf_path(hit_path(o)),
    ensures
        wf_set(apply_outcome(rs, o, ci), ci),
{
    match o {
        OutcomeModel::DirectHit(p) => lemma_apply_hit_wf(rs, p, ci),
        OutcomeModel::HistoryHit(p) => lemma_apply_hit_wf(rs, p, ci),
        OutcomeModel::DriveRoot(p) => lemma_apply_hit_wf(rs, p, ci),
        OutcomeModel::DeadEntry(p) => lemma_drop_matching_wf(rs, p, ci),
        OutcomeModel::FileRejected(p) => lemma_drop_matching_wf(rs, p, ci),
        OutcomeModel::DriveUnavailable(_) => {},
        OutcomeModel::NotFound => {},
    }
}

} // verus!

verus! {

/// A filtered singleton keeps its element exactly when the predicate
/// holds of it.
proof fn lemma_filter_singleton(x: Seq<char>, pred: spec_fn(Seq<char>) -> bool)
    ensures
        seq![x].filter(pred) == if pred(x) {
            seq![x]
        } else {
            Seq::<Seq<char>>::empty()
        },
{
    reveal(Seq::filter);
    assert(seq![x].drop_last() =~= Seq::<Seq<char>>::empty());
    assert(Seq::<Seq<char>>::empty().filter(pred) =~= Seq::<Seq<char>>::empty());
    assert(seq![x].last() == x);
    if pred(x) {
        assert(Seq::<Seq<char>>::empty().push(x) =~= seq![x]);
    }
}

/// A string that does not end in a separator has a last segment, and it
/// is exactly the run of characters after the last separator.
pub proof fn lemma_last_segment(s: Seq<char>)
    requires
        s.len() > 0,
        s.last() != '/',
    ensures
        segments(s).len() > 0,
        exists|b: int|
            {
                &&& 0 <= b < s.len()
                &&& (b == 0 || s[b - 1] == '/')
                &&& (forall|k: int| b <= k < s.len() ==> s[k] != '/')
                &&& segments(s).last() == s.skip(b)
            },
    decreases s.len(),
{
    let pred = |t: Seq<char>| t.len() > 0;
    crate::text::lemma_find_char(s, '/', 0);
    match crate::text::find_char(s, '/', 0) {
        None => {
            crate::text::lemma_split_on_whole(s, '/');
            lemma_filter_singleton(s, pred);
            assert(segments(s) == seq![s]);
            let b = 0int;
            assert(s.skip(0) =~= s);
            assert(segments(s).last() == s.skip(b));
            assert(b == 0 || s[b - 1] == '/');
            assert(forall|k: int| b <= k < s.len() ==> s[k] != '/');
        },
        Some(j) => {
            assert(s[j] == '/');
            assert(j < s.len() - 1);
            let tail = s.skip(j + 1);
            assert(tail.len() > 0);
            assert(tail.last() == s.last());
            lemma_last_segment(tail);
            let b2 = choose|b2: int|
                {
                    &&& 0 <= b2 < tail.len()
                    &&& (b2 == 0 || tail[b2 - 1] == '/')
                    &&& (forall|k: int| b2 <= k < tail.len() ==> tail[k] != '/')
                    &&& segments(tail).last() == tail.skip(b2)
                };
            assert(split_on(s, '/') == seq![s.take(j)] + split_on(tail, '/'));
            Seq::filter_distributes_over_add(seq![s.take(j)], split_on(tail, '/'), pred);
            lemma_filter_singleton(s.take(j), pred);
            assert(segments(s) == seq![s.take(j)].filter(pred) + segments(tail));
            assert(segments(tail).len() > 0);
            assert(segments(s).last() == segments(tail).last());
            let b = j + 1 + b2;
            assert(tail.skip(b2) =~= s.skip(b));
            assert(b == 0 || s[b - 1] == '/') by {
                if b2 == 0 {
                    assert(s[j] == '/');
                } else {
                    assert(tail[b2 - 1] == s[b - 1]);
                }
            }
            assert forall|k: int| b <= k < s.len() implies s[k] != '/' by {
                assert(tail[k - (j + 1)] == s[k]);
            }
            assert(segments(s).last() == s.skip(b));
        },
    }
}

/// Segment-boundary correctness: a separator-free fragment matches a
/// stored path exactly when the path's comparison form equals the
/// fragment or ends with a separator followed by the fragment. A path
/// merely ending in the fragment's characters, with no separator before
/// them, never matches.
pub proof fn lemma_segment_boundary(p: Seq<char>, seg: Seq<char>, ci: bool)
    requires
        seg.len() > 0,
        !has_char(seg, '/'),
        norm(p, ci).len() > 0,
        norm(p, ci).last() != '/',
    ensures
        ends_with_seg(p, seg, ci) <==> {
            let np = norm(p, ci);
            ||| np == seg
            ||| (np.len() > seg.len() && np.skip(np.len() - seg.len()) == seg && np[np.len()
                - seg.len() - 1] == '/')
        },
{
    let np = norm(p, ci);
    lemma_last_segment(np);
    let b = choose|b: int|
        {
            &&& 0 <= b < np.len()
            &&& (b == 0 || np[b - 1] == '/')
            &&& (forall|k: int| b <= k < np.len() ==> np[k] != '/')
            &&& segments(np).last() == np.skip(b)
        };
    if ends_with_seg(p, seg, ci) {
        assert(np.skip(b) == seg);
        assert(np.len() - b == seg.len());
        if b == 0 {
            assert(np =~= np.skip(0));
            assert(np == seg);
        } else {
            assert(np.len() > seg.len());
            assert(np[np.len() - seg.len() - 1] == '/');
        }
    }
    if np == seg {
        assert(b == 0) by {
            if b > 0 {
                assert(np[b - 1] == '/');
                assert(has_char(seg, '/'));
            }
        }
        assert(np.skip(0) =~= np);
        assert(ends_with_seg(p, seg, ci));
    } else if np.len() > seg.len() && np.skip(np.len() - seg.len()) == seg && np[np.len()
        - seg.len() - 1] == '/' {
        let t = np.len() - seg.len();
        assert(b == t) by {
            if b < t {
                assert(np[t - 1] == '/');
            }
            if b > t {
                assert(np[b - 1] == '/');
                assert(np.skip(t)[b - 1 - t] == np[b - 1]);
                assert(seg[b - 1 - t] == '/');
                assert(has_char(seg, '/'));
            }
        }
        assert(segments(np).last() == seg);
        assert(ends_with_seg(p, seg, ci));
    }
}

} // verus!

verus! {

/// The joins a chain consults are exactly its chain points, so two
/// snapshots that agree on the chain points agree on the chain and on
/// the fully joined path.
proof fn lemma_chain_agree(
    base: Seq<char>,
    segs: Seq<Seq<char>>,
    fs1: Seq<Seq<char>>,
    fs2: Seq<Seq<char>>,
)
    requires
        forall|p: Seq<char>|
            chain_points(base, segs).contains(p) ==> on_disk(fs1, p) == on_disk(fs2, p),
    ensures
        chain_on_disk(base, segs, fs1) == chain_on_disk(base, segs, fs2),
        on_disk(fs1, join_all(base, segs)) == on_disk(fs2, join_all(base, segs)),
    decreases segs.len(),
{
    if segs.len() == 0 {
        assert(chain_points(base, segs)[0] == base);
        assert(chain_points(base, segs).contains(base));
        assert(join_all(base, segs) == base);
    } else {
        let b2 = join_one(base, segs[0]);
        let sub = chain_points(b2, segs.drop_first());
        assert(chain_points(base, segs) == seq![base] + sub);
        assert forall|p: Seq<char>| sub.contains(p) implies on_disk(fs1, p) == on_disk(
            fs2,
            p,
        ) by {
            let k = choose|k: int| 0 <= k < sub.len() && sub[k] == p;
            assert(chain_points(base, segs)[k + 1] == p);
            assert(chain_points(base, segs).contains(p));
        }
        assert(sub.len() > 0) by {
            lemma_chain_points_len(b2, segs.drop_first());
        }
        assert(sub[0] == b2);
        assert(sub.contains(b2));
        lemma_chain_agree(b2, segs.drop_first(), fs1, fs2);
    }
}

/// A chain has one point more than it has segments.
proof fn lemma_chain_points_len(base: Seq<char>, segs: Seq<Seq<char>>)
    ensures
        chain_points(base, segs).len() == segs.len() + 1,
    decreases segs.len(),
{
    if segs.len() > 0 {
        lemma_chain_points_len(join_one(base, segs[0]), segs.drop_first());
    }
}

/// Two snapshots that agree on every probe of a multi-segment fragment
/// drive the scan to the same result.
proof fn lemma_scan_multi_agree(
    rs: Seq<LocModel>,
    first: Seq<char>,
    rest: Seq<Seq<char>>,
    ci: bool,
    fs1: Seq<Seq<char>>,
    fs2: Seq<Seq<char>>,
)
    requires
        forall|p: Seq<char>|
            probes_multi(rs, rest).contains(p) ==> on_disk(fs1, p) == on_disk(fs2, p),
    ensures
        scan_multi(rs, first, rest, ci, fs1) == scan_multi(rs, first, rest, ci, fs2),
    decreases rs.len(),
{
    if rs.len() > 0 {
        let cp = chain_points(rs[0].path, rest);
        let sub = probes_multi(rs.drop_first(), rest);
        assert(probes_multi(rs, rest) == cp + sub);
        assert forall|p: Seq<char>| cp.contains(p) implies on_disk(fs1, p) == on_disk(
            fs2,
            p,
        ) by {
            let k = choose|k: int| 0 <= k < cp.len() && cp[k] == p;
            assert(probes_multi(rs, rest)[k] == p);
            assert(probes_multi(rs, rest).contains(p));
        }
        lemma_chain_agree(rs[0].path, rest, fs1, fs2);
        assert(multi_hit(rs[0], first, rest, ci, fs1) == multi_hit(rs[0], first, rest, ci, fs2));
        assert forall|p: Seq<char>| sub.contains(p) implies on_disk(fs1, p) == on_disk(
            fs2,
            p,
        ) by {
            let k = choose|k: int| 0 <= k < sub.len() && sub[k] == p;
            assert(probes_multi(rs, rest)[cp.len() + k] == p);
            assert(probes_multi(rs, rest).contains(p));
        }
        lemma_scan_multi_agree(rs.drop_first(), first, rest, ci, fs1, fs2);
    }
}

/// The probe set is all the resolver ever asks of the filesystem: two
/// snapshots that agree on every probe path yield the same outcome. The
/// caller therefore loses nothing by checking exactly the probe paths
/// and handing the answers in as a snapshot.
pub proof fn lemma_probes_sufficient(
    cfg: Config,
    f: Seq<char>,
    rs: Seq<LocModel>,
    direct: CanonModel,
    drive: Option<Seq<char>>,
    fs1: Seq<Seq<char>>,
    fs2: Seq<Seq<char>>,
)
    requires
        forall|p: Seq<char>|
            probe_spec(f, rs).contains(p) ==> on_disk(fs1, p) == on_disk(fs2, p),
    ensures
        resolve_spec(cfg, f, rs, direct, drive, fs1) == resolve_spec(
            cfg,
            f,
            rs,
            direct,
            drive,
            fs2,
        ),
{
    let ci = cfg.case_insensitive;
    let nf = sep_norm(f);
    if has_char(nf, '/') {
        let segs = segments(nf);
        if segs.len() > 0 {
            lemma_scan_multi_agree(rs, fold_case(segs[0], ci), segs.drop_first(), ci, fs1, fs2);
        }
    } else {
        let seg = fold_case(nf, ci);
        match scan_single(rs, seg, ci) {
            Some(p) => {
                lemma_scan_single_first(rs, seg, ci);
                let i = choose|i: int|
                    {
                        &&& 0 <= i < rs.len()
                        &&& #[trigger] rs[i].path == p
                        &&& match_single(rs[i], seg, ci)
                        &&& forall|k: int| 0 <= k < i ==> !match_single(rs[k], seg, ci)
                    };
                assert(probes_single(rs)[i] == p);
                assert(probes_single(rs).contains(p));
            },
            None => {},
        }
    }
}

} // verus!
