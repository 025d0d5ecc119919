use vstd::prelude::*;
use crate::codec::{LocModel, Location};
use crate::resolver::{
    CanonStatus, Config, FsView, Outcome, OutcomeModel, fold_lower, norm, normalize_seps,
    resolve, resolve_spec,
};

verus! {

/// Two paths name the same stored location when their comparison forms
/// coincide.
pub open spec fn norm_eq(a: Seq<char>, b: Seq<char>, ci: bool) -> bool {
    norm(a, ci) == norm(b, ci)
}

/// Some record of the set names `p`.
pub open spec fn has_match(rs: Seq<LocModel>, p: Seq<char>, ci: bool) -> bool {
    exists|i: int| 0 <= i < rs.len() && norm_eq(rs[i].path, p, ci)
}

/// One more use of a location; the count stays put once it has reached
/// the largest machine word.
pub open spec fn bump(l: LocModel) -> LocModel {
    LocModel {
        path: l.path,
        count: if l.count < usize::MAX as nat {
            (l.count + 1) as nat
        } else {
            l.count
        },
    }
}

/// The mutation of a successful resolution: the first record naming the
/// resolved path is incremented; if none does, a fresh record with count 1
/// is appended.
pub open spec fn apply_hit(rs: Seq<LocModel>, p: Seq<char>, ci: bool) -> Seq<LocModel>
    decreases rs.len(),
{
    if rs.len() == 0 {
        seq![LocModel { path: p, count: 1 }]
    } else if norm_eq(rs[0].path, p, ci) {
        seq![bump(rs[0])] + rs.drop_first()
    } else {
        seq![rs[0]] + apply_hit(rs.drop_first(), p, ci)
    }
}

/// The records left after pruning every record naming `p`; all others
/// keep their place and order.
pub open spec fn drop_matching(rs: Seq<LocModel>, p: Seq<char>, ci: bool) -> Seq<LocModel> {
    rs.filter(|l: LocModel| !norm_eq(l.path, p, ci))
}

/// The single mutation each outcome applies to the location set: hits
/// increment or insert, a dead entry and a rejected file are pruned,
/// everything else leaves the set untouched.
pub open spec fn apply_outcome(rs: Seq<LocModel>, o: OutcomeModel, ci: bool) -> Seq<LocModel> {
    match o {
        OutcomeModel::DirectHit(p) => apply_hit(rs, p, ci),
        OutcomeModel::HistoryHit(p) => apply_hit(rs, p, ci),
        OutcomeModel::DriveRoot(p) => apply_hit(rs, p, ci),
        OutcomeModel::DeadEntry(p) => drop_matching(rs, p, ci),
        OutcomeModel::FileRejected(p) => drop_matching(rs, p, ci),
        OutcomeModel::DriveUnavailable(_) => rs,
        OutcomeModel::NotFound => rs,
    }
}

/// Whether the outcome mutates the set at all, and so whether the caller
/// owes the store one rewrite.
pub open spec fn outcome_mutates(rs: Seq<LocModel>, o: OutcomeModel, ci: bool) -> bool {
    match o {
        OutcomeModel::DirectHit(_) => true,
        OutcomeModel::HistoryHit(_) => true,
        OutcomeModel::DriveRoot(_) => true,
        OutcomeModel::DeadEntry(p) => has_match(rs, p, ci),
        OutcomeModel::FileRejected(p) => has_match(rs, p, ci),
        OutcomeModel::DriveUnavailable(_) => false,
        OutcomeModel::NotFound => false,
    }
}

/// When the first record naming `p` stands at `idx`, the mutation of a
/// hit is exactly: that record incremented, everything else in place.
pub proof fn lemma_apply_hit_at(rs: Seq<LocModel>, p: Seq<char>, ci: bool, idx: int)
    requires
        0 <= idx < rs.len(),
        norm_eq(rs[idx].path, p, ci),
        forall|k: int| 0 <= k < idx ==> !norm_eq(rs[k].path, p, ci),
    ensures
        apply_hit(rs, p, ci) == rs.take(idx) + seq![bump(rs[idx])] + rs.skip(idx + 1),
    decreases idx,
{
    if idx == 0 {
        assert(rs.take(0) =~= Seq::<LocModel>::empty());
        assert(rs.drop_first() =~= rs.skip(1));
        assert(apply_hit(rs, p, ci) =~= rs.take(0) + seq![bump(rs[0])] + rs.skip(1));
    } else {
        lemma_apply_hit_at(rs.drop_first(), p, ci, idx - 1);
        assert(rs.drop_first().take(idx - 1) =~= rs.take(idx).drop_first());
        assert(rs.drop_first().skip(idx) =~= rs.skip(idx + 1));
        assert(rs.drop_first()[idx - 1] == rs[idx]);
        assert(apply_hit(rs, p, ci) =~= rs.take(idx) + seq![bump(rs[idx])] + rs.skip(idx + 1));
    }
}

/// When no record names `p`, the mutation of a hit is exactly: a fresh
/// record appended at the end.
pub proof fn lemma_apply_hit_none(rs: Seq<LocModel>, p: Seq<char>, ci: bool)
    requires
        !has_match(rs, p, ci),
    ensures
        apply_hit(rs, p, ci) == rs.push(LocModel { path: p, count: 1 }),
    decreases rs.len(),
{
    if rs.len() == 0 {
        assert(apply_hit(rs, p, ci) =~= rs.push(LocModel { path: p, count: 1 }));
    } else {
        assert(!norm_eq(rs[0].path, p, ci));
        assert(!has_match(rs.drop_first(), p, ci)) by {
            if has_match(rs.drop_first(), p, ci) {
                let i = choose|i: int|
                    0 <= i < rs.drop_first().len() && norm_eq(rs.drop_first()[i].path, p, ci);
                assert(norm_eq(rs[i + 1].path, p, ci));
            }
        }
        lemma_apply_hit_none(rs.drop_first(), p, ci);
        assert(apply_hit(rs, p, ci) =~= rs.push(LocModel { path: p, count: 1 }));
    }
}

/// Compares two paths under the active case rule.
pub fn norm_eq_exec(a: &str, b: &str, ci: bool) -> (r: bool)
    ensures
        r == norm_eq(a@, b@, ci),
{
    let na = fold_lower(normalize_seps(a).as_str(), ci);
    let nb = fold_lower(normalize_seps(b).as_str(), ci);
    na.eq(&nb)
}

/// The position of the first record naming `p`, if any.
fn find_match(records: &Vec<Location>, p: &str, ci: bool) -> (r: Option<usize>)
    ensures
        match r {
            Some(idx) => {
                &&& idx < records@.len()
                &&& norm_eq(records.deep_view()[idx as int].path, p@, ci)
                &&& forall|k: int|
                    0 <= k < idx ==> !norm_eq(records.deep_view()[k].path, p@, ci)
            },
            None => !has_match(records.deep_view(), p@, ci),
        },
{
    let ghost rs = records.deep_view();
    let mut i: usize = 0;
    while i < records.len()
        invariant
            i <= records@.len(),
            rs == records.deep_view(),
            rs.len() == records@.len(),
            forall|k: int| 0 <= k < i ==> !norm_eq(rs[k].path, p@, ci),
        decreases records@.len() - i,
    {
        proof {
            assert(rs[i as int] == records@[i as int]@);
        }
        if norm_eq_exec(records[i].path.as_str(), p, ci) {
            return Some(i);
        }
        i = i + 1;
    }
    None
}

/// Applies the mutation of a successful resolution and returns the new
/// record set.
pub fn apply_hit_exec(records: &Vec<Location>, p: &String, ci: bool) -> (out: Vec<Location>)
    ensures
        out.deep_view() == apply_hit(records.deep_view(), p@, ci),
{
    let ghost rs = records.deep_view();
    let found = find_match(records, p.as_str(), ci);
    let mut out: Vec<Location> = Vec::new();
    let mut i: usize = 0;
    proof {
        assert(out.deep_view() =~= rs.take(0));
    }
    while i < records.len()
        invariant
            i <= records@.len(),
            rs == records.deep_view(),
            rs.len() == records@.len(),
            match found {
                Some(idx) => {
                    &&& idx < rs.len()
                    &&& norm_eq(rs[idx as int].path, p@, ci)
                    &&& forall|k: int| 0 <= k < idx ==> !norm_eq(rs[k].path, p@, ci)
                    &&& if i <= idx {
                        out.deep_view() == rs.take(i as int)
                    } else {
                        out.deep_view() == rs.take(idx as int) + seq![bump(rs[idx as int])]
                            + rs.subrange(idx + 1, i as int)
                    }
                },
                None => {
                    &&& !has_match(rs, p@, ci)
                    &&& out.deep_view() == rs.take(i as int)
                },
            },
        decreases records@.len() - i,
    {
        proof {
            assert(rs[i as int] == records@[i as int]@);
        }
        let ghost pre = out.deep_view();
        let is_the_match = match found {
            Some(idx) => idx == i,
            None => false,
        };
        if is_the_match {
            let loc = &records[i];
            let new_count = if loc.count < usize::MAX {
                loc.count + 1
            } else {
                loc.count
            };
            out.push(Location { path: loc.path.clone(), count: new_count });
            proof {
                assert(out.deep_view() =~= pre.push(bump(rs[i as int])));
                assert(rs.take(i as int) + seq![bump(rs[i as int])] + rs.subrange(
                    i + 1,
                    i + 1,
                ) =~= pre.push(bump(rs[i as int])));
            }
        } else {
            out.push(records[i].clone());
            proof {
                assert(out.deep_view() =~= pre.push(rs[i as int]));
                match found {
                    Some(idx) => {
                        if i < idx {
                            assert(rs.take(i + 1) =~= rs.take(i as int).push(rs[i as int]));
                        } else {
                            assert(rs.take(idx as int) + seq![bump(rs[idx as int])]
                                + rs.subrange(idx + 1, i + 1) =~= pre.push(rs[i as int]));
                        }
                    },
                    None => {
                        assert(rs.take(i + 1) =~= rs.take(i as int).push(rs[i as int]));
                    },
                }
            }
        }
        i = i + 1;
    }
    match found {
        Some(idx) => {
            proof {
                lemma_apply_hit_at(rs, p@, ci, idx as int);
                assert(rs.take(rs.len() as int) =~= rs);
                assert(rs.subrange(idx + 1, rs.len() as int) =~= rs.skip(idx + 1));
            }
        },
        None => {
            let loc = Location { path: p.clone(), count: 1 };
            let ghost pre = out.deep_view();
            out.push(loc);
            proof {
                lemma_apply_hit_none(rs, p@, ci);
                assert(rs.take(rs.len() as int) =~= rs);
                assert(out.deep_view() =~= rs.push(LocModel { path: p@, count: 1 }));
            }
        },
    }
    out
}

/// Prunes every record naming `p`; the second result says whether any
/// record was in fact removed.
pub fn drop_matching_exec(records: &Vec<Location>, p: &String, ci: bool) -> (out: (
    Vec<Location>,
    bool,
))
    ensures
        out.0.deep_view() == drop_matching(records.deep_view(), p@, ci),
        out.1 == has_match(records.deep_view(), p@, ci),
{
    let ghost rs = records.deep_view();
    let ghost pred = |l: LocModel| !norm_eq(l.path, p@, ci);
    let mut out: Vec<Location> = Vec::new();
    let mut removed = false;
    let mut i: usize = 0;
    proof {
        assert(rs.take(0) =~= Seq::<LocModel>::empty());
        reveal_with_fuel(Seq::<_>::filter, 1);
        assert(out.deep_view() =~= rs.take(0).filter(pred));
    }
    while i < records.len()
        invariant
            i <= records@.len(),
            rs == records.deep_view(),
            rs.len() == records@.len(),
            pred == (|l: LocModel| !norm_eq(l.path, p@, ci)),
            out.deep_view() == rs.take(i as int).filter(pred),
            removed == exists|k: int| 0 <= k < i && norm_eq(rs[k].path, p@, ci),
        decreases records@.len() - i,
    {
        proof {
            assert(rs[i as int] == records@[i as int]@);
            assert(rs.take(i + 1) =~= rs.take(i as int).push(rs[i as int]));
            assert(rs.take(i + 1).drop_last() =~= rs.take(i as int));
            reveal_with_fuel(Seq::<_>::filter, 1);
        }
        if norm_eq_exec(records[i].path.as_str(), p.as_str(), ci) {
            removed = true;
            proof {
                assert(rs.take(i + 1).filter(pred) =~= rs.take(i as int).filter(pred));
            }
        } else {
            let ghost pre = out.deep_view();
            out.push(records[i].clone());
            proof {
                assert(out.deep_view() =~= pre.push(rs[i as int]));
                assert(rs.take(i + 1).filter(pred) =~= rs.take(i as int).filter(pred).push(
                    rs[i as int],
                ));
            }
        }
        i = i + 1;
    }
    proof {
        assert(rs.take(rs.len() as int) =~= rs);
    }
    (out, removed)
}

/// Everything one invocation decides: the outcome to report, the record
/// set to keep, and whether that set must be rewritten to storage.
pub struct SessionOutput {
    pub outcome: Outcome,
    pub records: Vec<Location>,
    pub mutated: bool,
}

/// One full invocation over an already-loaded record set: resolve the
/// fragment, apply the single mutation the outcome calls for, and say
/// whether the store must be rewritten. The caller loads the set before
/// and persists the new set after, exactly when `mutated` is set.
pub fn run_session(
    cfg: &Config,
    fragment: &str,
    records: Vec<Location>,
    direct: &CanonStatus,
    drive: &Option<String>,
    fs: &FsView,
) -> (out: SessionOutput)
    ensures
        out.outcome@ == resolve_spec(
            *cfg,
            fragment@,
            records.deep_view(),
            direct@,
            drive.deep_view(),
            fs@,
        ),
        out.records.deep_view() == apply_outcome(
            records.deep_view(),
            out.outcome@,
            cfg.case_insensitive,
        ),
        out.mutated == outcome_mutates(
            records.deep_view(),
            out.outcome@,
            cfg.case_insensitive,
        ),
{
    let ci = cfg.case_insensitive;
    let outcome = resolve(cfg, fragment, &records, direct, drive, fs);
    match &outcome {
        Outcome::DirectHit(p) => {
            let new_records = apply_hit_exec(&records, p, ci);
            SessionOutput { outcome, records: new_records, mutated: true }
        },
        Outcome::HistoryHit(p) => {
            let new_records = apply_hit_exec(&records, p, ci);
            SessionOutput { outcome, records: new_records, mutated: true }
        },
        Outcome::DriveRoot(p) => {
            let new_records = apply_hit_exec(&records, p, ci);
            SessionOutput { outcome, records: new_records, mutated: true }
        },
        Outcome::DeadEntry(p) => {
            let (new_records, removed) = drop_matching_exec(&records, p, ci);
            SessionOutput { outcome, records: new_records, mutated: removed }
        },
        Outcome::FileRejected(p) => {
            let (new_records, removed) = drop_matching_exec(&records, p, ci);
            SessionOutput { outcome, records: new_records, mutated: removed }
        },
        Outcome::DriveUnavailable(_) => SessionOutput { outcome, records, mutated: false },
        Outcome::NotFound => SessionOutput { outcome, records, mutated: false },
    }
}

} // verus!

verus! {

/// Everything one invocation decides, starting from the raw database
/// text: the outcome to report, and the full replacement text to write,
/// present exactly when a mutation occurred.
#[derive(Debug)]
pub struct SessionTextOutput {
    pub outcome: Outcome,
    pub new_text: Option<String>,
}

/// One full invocation over the raw database text: load the set (a
/// missing file reads as empty text, which the caller decides), resolve
/// the fragment, apply the single mutation, and render the replacement
/// text exactly when the set changed. A corrupt database aborts the
/// invocation before anything is resolved.
pub fn run_session_text(
    cfg: &Config,
    fragment: &str,
    db_text: &str,
    direct: &CanonStatus,
    drive: &Option<String>,
    fs: &FsView,
) -> (r: Result<SessionTextOutput, crate::store::DatabaseCorrupt>)
    ensures
        match r {
            Ok(out) => {
                &&& crate::store::load_spec(db_text@) is Some
                &&& {
                    let rs = crate::store::load_spec(db_text@)->Some_0;
                    let ci = cfg.case_insensitive;
                    &&& out.outcome@ == resolve_spec(
                        *cfg,
                        fragment@,
                        rs,
                        direct@,
                        drive.deep_view(),
                        fs@,
                    )
                    &&& match out.new_text {
                        Some(t) => outcome_mutates(rs, out.outcome@, ci) && t@
                            == crate::store::save_spec(apply_outcome(rs, out.outcome@, ci)),
                        None => !outcome_mutates(rs, out.outcome@, ci),
                    }
                }
            },
            Err(_) => crate::store::load_spec(db_text@) is None,
        },
{
    let records = match crate::store::load(db_text) {
        Ok(r) => r,
        Err(e) => {
            return Err(e);
        },
    };
    let out = run_session(cfg, fragment, records, direct, drive, fs);
    let new_text = if out.mutated {
        Some(crate::store::save(&out.records))
    } else {
        None
    };
    Ok(SessionTextOutput { outcome: out.outcome, new_text })
}

} // verus!
