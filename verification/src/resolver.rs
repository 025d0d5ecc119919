use vstd::prelude::*;
use crate::ascii::{char_to_lower, lower_char};
use crate::codec::{LocModel, Location};
use crate::text::{push_char, split_char, split_on};

verus! {

/// Matching policy of the resolver. Case folding and drive-letter handling
/// vary by platform, so both are explicit knobs rather than compile-time
/// choices, and the same engine is testable under either rule.
#[derive(Clone, Copy)]
pub struct Config {
    /// Fold ASCII case before comparing paths (case-insensitive filesystems).
    pub case_insensitive: bool,
    /// Interpret `X:` and single-letter fragments as drive roots.
    pub drive_letters: bool,
}

/// What the caller learned by canonicalizing the direct join of the
/// fragment onto the working directory: a directory, a regular file, or
/// nothing (canonicalization failed).
#[derive(Debug)]
pub enum CanonStatus {
    Dir(String),
    File(String),
    Missing,
}

/// The mathematical value of a [`CanonStatus`].
pub enum CanonModel {
    Dir(Seq<char>),
    File(Seq<char>),
    Missing,
}

impl View for CanonStatus {
    type V = CanonModel;

    open spec fn view(&self) -> CanonModel {
        match self {
            CanonStatus::Dir(p) => CanonModel::Dir(p@),
            CanonStatus::File(p) => CanonModel::File(p@),
            CanonStatus::Missing => CanonModel::Missing,
        }
    }
}

/// A snapshot of filesystem facts: the paths the caller has checked and
/// found to exist. Any path not listed counts as absent.
pub struct FsView {
    pub present: Vec<String>,
}

impl View for FsView {
    type V = Seq<Seq<char>>;

    open spec fn view(&self) -> Seq<Seq<char>> {
        self.present.deep_view()
    }
}

/// Whether the snapshot says `p` exists.
pub open spec fn on_disk(fs: Seq<Seq<char>>, p: Seq<char>) -> bool {
    exists|i: int| 0 <= i < fs.len() && fs[i] == p
}

/// What one invocation of the resolver decided.
#[derive(Debug)]
pub enum Outcome {
    /// The fragment denotes an existing directory as given.
    DirectHit(String),
    /// A remembered location matched and exists.
    HistoryHit(String),
    /// A remembered location matched but is gone from disk.
    DeadEntry(String),
    /// The fragment denotes an existing regular file, never a cd target.
    FileRejected(String),
    /// The fragment named a drive and its root exists.
    DriveRoot(String),
    /// The fragment named a drive whose root cannot be reached.
    DriveUnavailable(String),
    /// Nothing matched.
    NotFound,
}

/// The mathematical value of an [`Outcome`].
pub enum OutcomeModel {
    DirectHit(Seq<char>),
    HistoryHit(Seq<char>),
    DeadEntry(Seq<char>),
    FileRejected(Seq<char>),
    DriveRoot(Seq<char>),
    DriveUnavailable(Seq<char>),
    NotFound,
}

impl View for Outcome {
    type V = OutcomeModel;

    open spec fn view(&self) -> OutcomeModel {
        match self {
            Outcome::DirectHit(p) => OutcomeModel::DirectHit(p@),
            Outcome::HistoryHit(p) => OutcomeModel::HistoryHit(p@),
            Outcome::DeadEntry(p) => OutcomeModel::DeadEntry(p@),
            Outcome::FileRejected(p) => OutcomeModel::FileRejected(p@),
            Outcome::DriveRoot(p) => OutcomeModel::DriveRoot(p@),
            Outcome::DriveUnavailable(p) => OutcomeModel::DriveUnavailable(p@),
            Outcome::NotFound => OutcomeModel::NotFound,
        }
    }
}

/// Every backslash replaced by the canonical separator.
pub open spec fn sep_norm(s: Seq<char>) -> Seq<char> {
    s.map_values(|c: char| if c == '\\' { '/' } else { c })
}

/// ASCII case folded away when the configuration asks for it.
pub open spec fn fold_case(s: Seq<char>, ci: bool) -> Seq<char> {
    if ci {
        s.map_values(|c: char| lower_char(c))
    } else {
        s
    }
}

/// The comparison form of a path: canonical separators, case folded per
/// configuration.
pub open spec fn norm(s: Seq<char>, ci: bool) -> Seq<char> {
    fold_case(sep_norm(s), ci)
}

/// The non-empty pieces of `s` between separators.
pub open spec fn segments(s: Seq<char>) -> Seq<Seq<char>> {
    split_on(s, '/').filter(|t: Seq<char>| t.len() > 0)
}

/// `s` contains the character `c`.
pub open spec fn has_char(s: Seq<char>, c: char) -> bool {
    exists|k: int| 0 <= k < s.len() && s[k] == c
}

/// The normalized path ends with `seg` as one complete trailing segment
/// (`seg` is already in comparison form).
pub open spec fn ends_with_seg(path: Seq<char>, seg: Seq<char>, ci: bool) -> bool {
    let segs = segments(norm(path, ci));
    segs.len() > 0 && segs.last() == seg
}

/// Replaces every backslash in `s` by the canonical separator.
pub fn normalize_seps(s: &str) -> (r: String)
    ensures
        r@ == sep_norm(s@),
{
    let n = s.unicode_len();
    let mut out = String::new();
    let mut i: usize = 0;
    proof {
        assert(out@ =~= sep_norm(s@.take(0)));
    }
    while i < n
        invariant
            i <= n == s@.len(),
            out@ == sep_norm(s@.take(i as int)),
        decreases n - i,
    {
        let c = s.get_char(i);
        let c2 = if c == '\\' {
            '/'
        } else {
            c
        };
        push_char(&mut out, c2);
        proof {
            assert(out@ =~= sep_norm(s@.take(i + 1)));
        }
        i = i + 1;
    }
    proof {
        assert(s@.take(n as int) =~= s@);
    }
    out
}

/// Folds ASCII case when `ci` is set, else copies the string.
pub fn fold_lower(s: &str, ci: bool) -> (r: String)
    ensures
        r@ == fold_case(s@, ci),
{
    if !ci {
        return s.to_owned();
    }
    let n = s.unicode_len();
    let mut out = String::new();
    let mut i: usize = 0;
    proof {
        assert(out@ =~= fold_case(s@.take(0), true));
    }
    while i < n
        invariant
            i <= n == s@.len(),
            out@ == fold_case(s@.take(i as int), true),
        decreases n - i,
    {
        let c = char_to_lower(s.get_char(i));
        push_char(&mut out, c);
        proof {
            assert(out@ =~= fold_case(s@.take(i + 1), true));
        }
        i = i + 1;
    }
    proof {
        assert(s@.take(n as int) =~= s@);
    }
    out
}

/// Whether `s` contains `c`.
pub fn contains_char(s: &str, c: char) -> (b: bool)
    ensures
        b == has_char(s@, c),
{
    let n = s.unicode_len();
    let mut i: usize = 0;
    while i < n
        invariant
            i <= n == s@.len(),
            forall|k: int| 0 <= k < i ==> s@[k] != c,
        decreases n - i,
    {
        if s.get_char(i) == c {
            return true;
        }
        i = i + 1;
    }
    false
}

/// The non-empty segments of `s`.
pub fn segments_exec(s: &str) -> (v: Vec<String>)
    ensures
        v.deep_view() == segments(s@),
{
    let parts = split_char(s, '/');
    let mut out: Vec<String> = Vec::new();
    let mut i: usize = 0;
    let ghost pred = |t: Seq<char>| t.len() > 0;
    proof {
        assert(parts.deep_view().take(0) =~= Seq::<Seq<char>>::empty());
        assert(out.deep_view() =~= Seq::<Seq<char>>::empty().filter(pred)) by {
            reveal_with_fuel(Seq::<_>::filter, 1);
            assert(out.deep_view() =~= Seq::<Seq<char>>::empty());
        }
    }
    while i < parts.len()
        invariant
            i <= parts@.len(),
            parts.deep_view().len() == parts@.len(),
            out.deep_view() == parts.deep_view().take(i as int).filter(pred),
            pred == (|t: Seq<char>| t.len() > 0),
        decreases parts@.len() - i,
    {
        let ghost dv = parts.deep_view();
        let ghost prefix = dv.take(i as int);
        proof {
            assert(dv.take(i + 1) =~= prefix.push(dv[i as int]));
            assert(prefix.push(dv[i as int]).drop_last() =~= prefix);
            reveal_with_fuel(Seq::<_>::filter, 1);
            assert(dv[i as int] == parts@[i as int]@);
        }
        if parts[i].as_str().unicode_len() > 0 {
            let ghost pre = out.deep_view();
            let piece = parts[i].clone();
            out.push(piece);
            proof {
                assert(out.deep_view() =~= pre.push(dv[i as int]));
                assert(dv.take(i + 1).filter(pred) =~= prefix.filter(pred).push(
                    dv[i as int],
                ));
            }
        } else {
            proof {
                assert(dv.take(i + 1).filter(pred) =~= prefix.filter(pred));
            }
        }
        i = i + 1;
    }
    proof {
        assert(parts.deep_view().take(parts@.len() as int) =~= parts.deep_view());
    }
    out
}

/// Whether the stored path, in comparison form, ends with the segment
/// `seg` (already in comparison form).
pub fn ends_with_seg_exec(path: &str, seg: &String, ci: bool) -> (b: bool)
    ensures
        b == ends_with_seg(path@, seg@, ci),
{
    let seps = normalize_seps(path);
    let folded = fold_lower(seps.as_str(), ci);
    let segs = segments_exec(folded.as_str());
    if segs.len() == 0 {
        return false;
    }
    let last = &segs[segs.len() - 1];
    proof {
        assert(segs.deep_view().last() == segs@[segs@.len() - 1]@);
    }
    last.eq(seg)
}

} // verus!

verus! {

/// The path already ends in a separator (either style), so joining adds
/// none.
pub open spec fn ends_sep(base: Seq<char>) -> bool {
    base.len() > 0 && (base.last() == '/' || base.last() == '\\')
}

/// `seg` appended to `base` with exactly one separator between them; the
/// base keeps its stored spelling.
pub open spec fn join_one(base: Seq<char>, seg: Seq<char>) -> Seq<char> {
    if ends_sep(base) {
        base + seg
    } else {
        base + seq!['/'] + seg
    }
}

/// All of `segs` joined onto `base`, left to right.
pub open spec fn join_all(base: Seq<char>, segs: Seq<Seq<char>>) -> Seq<char>
    decreases segs.len(),
{
    if segs.len() == 0 {
        base
    } else {
        join_all(join_one(base, segs[0]), segs.drop_first())
    }
}

/// Every intermediate join of `segs` onto `base` exists in the snapshot.
pub open spec fn chain_on_disk(base: Seq<char>, segs: Seq<Seq<char>>, fs: Seq<Seq<char>>) -> bool
    decreases segs.len(),
{
    if segs.len() == 0 {
        true
    } else {
        let b2 = join_one(base, segs[0]);
        on_disk(fs, b2) && chain_on_disk(b2, segs.drop_first(), fs)
    }
}

/// Joining one more segment extends the joined path by exactly that step.
pub proof fn lemma_join_all_snoc(base: Seq<char>, segs: Seq<Seq<char>>, x: Seq<char>)
    ensures
        join_all(base, segs.push(x)) == join_one(join_all(base, segs), x),
    decreases segs.len(),
{
    if segs.len() == 0 {
        assert(segs.push(x)[0] == x);
        assert(segs.push(x).drop_first() =~= Seq::<Seq<char>>::empty());
        assert(join_all(join_one(base, x), Seq::<Seq<char>>::empty()) == join_one(base, x));
        assert(join_all(base, segs) == base);
    } else {
        assert(segs.push(x)[0] == segs[0]);
        assert(segs.push(x).drop_first() =~= segs.drop_first().push(x));
        lemma_join_all_snoc(join_one(base, segs[0]), segs.drop_first(), x);
    }
}

/// Extending a chain by one segment adds exactly one existence check.
pub proof fn lemma_chain_snoc(base: Seq<char>, segs: Seq<Seq<char>>, x: Seq<char>, fs: Seq<Seq<char>>)
    ensures
        chain_on_disk(base, segs.push(x), fs) == (chain_on_disk(base, segs, fs) && on_disk(
            fs,
            join_one(join_all(base, segs), x),
        )),
    decreases segs.len(),
{
    if segs.len() == 0 {
        assert(segs.push(x)[0] == x);
        assert(segs.push(x).drop_first() =~= Seq::<Seq<char>>::empty());
        assert(chain_on_disk(join_one(base, x), Seq::<Seq<char>>::empty(), fs));
        assert(join_all(base, segs) == base);
    } else {
        assert(segs.push(x)[0] == segs[0]);
        assert(segs.push(x).drop_first() =~= segs.drop_first().push(x));
        lemma_chain_snoc(join_one(base, segs[0]), segs.drop_first(), x, fs);
        assert(join_all(base, segs) == join_all(join_one(base, segs[0]), segs.drop_first()));
    }
}

/// A chain that holds for all of `segs` holds for every prefix of it.
pub proof fn lemma_chain_prefix(base: Seq<char>, segs: Seq<Seq<char>>, fs: Seq<Seq<char>>, k: int)
    requires
        0 <= k <= segs.len(),
        chain_on_disk(base, segs, fs),
    ensures
        chain_on_disk(base, segs.take(k), fs),
    decreases segs.len(),
{
    if k == 0 {
        assert(segs.take(0) =~= Seq::<Seq<char>>::empty());
    } else {
        assert(segs.take(k)[0] == segs[0]);
        assert(segs.take(k).drop_first() =~= segs.drop_first().take(k - 1));
        lemma_chain_prefix(join_one(base, segs[0]), segs.drop_first(), fs, k - 1);
    }
}

/// Whether the snapshot lists `p`.
pub fn on_disk_exec(fs: &FsView, p: &String) -> (b: bool)
    ensures
        b == on_disk(fs@, p@),
{
    let mut i: usize = 0;
    while i < fs.present.len()
        invariant
            i <= fs.present@.len(),
            forall|k: int| 0 <= k < i ==> fs@[k] != p@,
        decreases fs.present@.len() - i,
    {
        if fs.present[i].eq(p) {
            proof {
                assert(fs@[i as int] == p@);
            }
            return true;
        }
        proof {
            assert(fs@[i as int] == fs.present@[i as int]@);
        }
        i = i + 1;
    }
    false
}

/// Joins `seg` onto `base` with exactly one separator.
pub fn join_one_exec(base: &str, seg: &str) -> (r: String)
    ensures
        r@ == join_one(base@, seg@),
{
    let mut out = base.to_owned();
    let n = base.unicode_len();
    let add_sep = if n == 0 {
        true
    } else {
        let l = base.get_char(n - 1);
        !(l == '/' || l == '\\')
    };
    if add_sep {
        push_char(&mut out, '/');
    }
    out.append(seg);
    proof {
        assert(out@ =~= join_one(base@, seg@));
    }
    out
}

/// Tries to join all of `rest` onto `base`, checking the snapshot after
/// every step; yields the fully joined path if every step and the full
/// path exist.
fn try_chain(base: &String, rest: &Vec<String>, fs: &FsView) -> (r: Option<String>)
    ensures
        match r {
            Some(p) => {
                &&& chain_on_disk(base@, rest.deep_view(), fs@)
                &&& on_disk(fs@, join_all(base@, rest.deep_view()))
                &&& p@ == join_all(base@, rest.deep_view())
            },
            None => !(chain_on_disk(base@, rest.deep_view(), fs@) && on_disk(
                fs@,
                join_all(base@, rest.deep_view()),
            )),
        },
{
    let ghost dv = rest.deep_view();
    let mut cur = base.clone();
    let mut k: usize = 0;
    proof {
        assert(dv.take(0) =~= Seq::<Seq<char>>::empty());
        assert(join_all(base@, dv.take(0)) == base@);
    }
    while k < rest.len()
        invariant
            k <= rest@.len(),
            dv == rest.deep_view(),
            dv.len() == rest@.len(),
            cur@ == join_all(base@, dv.take(k as int)),
            chain_on_disk(base@, dv.take(k as int), fs@),
        decreases rest@.len() - k,
    {
        let step = join_one_exec(cur.as_str(), rest[k].as_str());
        proof {
            assert(dv[k as int] == rest@[k as int]@);
            assert(dv.take(k + 1) =~= dv.take(k as int).push(dv[k as int]));
            lemma_join_all_snoc(base@, dv.take(k as int), dv[k as int]);
            lemma_chain_snoc(base@, dv.take(k as int), dv[k as int], fs@);
        }
        if !on_disk_exec(fs, &step) {
            proof {
                if chain_on_disk(base@, dv, fs@) {
                    lemma_chain_prefix(base@, dv, fs@, k + 1);
                }
            }
            return None;
        }
        cur = step;
        k = k + 1;
    }
    proof {
        assert(dv.take(rest@.len() as int) =~= dv);
    }
    if on_disk_exec(fs, &cur) {
        Some(cur)
    } else {
        None
    }
}

} // verus!

verus! {

/// Whether one record matches a separator-free fragment (already in
/// comparison form).
pub open spec fn match_single(l: LocModel, seg: Seq<char>, ci: bool) -> bool {
    ends_with_seg(l.path, seg, ci)
}

/// The stored path of the first record whose normalized path ends with
/// the fragment segment; records are scanned in stored order.
pub open spec fn scan_single(rs: Seq<LocModel>, seg: Seq<char>, ci: bool) -> Option<Seq<char>>
    decreases rs.len(),
{
    if rs.len() == 0 {
        None
    } else if match_single(rs[0], seg, ci) {
        Some(rs[0].path)
    } else {
        scan_single(rs.drop_first(), seg, ci)
    }
}

/// Whether one record carries a multi-segment fragment: its normalized
/// path ends with the first segment, and every join of the remaining
/// segments, including the fully joined path, exists in the snapshot.
pub open spec fn multi_hit(
    l: LocModel,
    first: Seq<char>,
    rest: Seq<Seq<char>>,
    ci: bool,
    fs: Seq<Seq<char>>,
) -> bool {
    &&& ends_with_seg(l.path, first, ci)
    &&& chain_on_disk(l.path, rest, fs)
    &&& on_disk(fs, join_all(l.path, rest))
}

/// The fully joined path of the first record that carries a multi-segment
/// fragment; records whose joins leave the disk are skipped.
pub open spec fn scan_multi(
    rs: Seq<LocModel>,
    first: Seq<char>,
    rest: Seq<Seq<char>>,
    ci: bool,
    fs: Seq<Seq<char>>,
) -> Option<Seq<char>>
    decreases rs.len(),
{
    if rs.len() == 0 {
        None
    } else if multi_hit(rs[0], first, rest, ci, fs) {
        Some(join_all(rs[0].path, rest))
    } else {
        scan_multi(rs.drop_first(), first, rest, ci, fs)
    }
}

/// The history rule: a separator-free fragment matches the first record
/// ending in it as a whole segment (a match that has left the disk is a
/// dead entry); a fragment with separators must also re-join its trailing
/// segments on disk, and skips records where that fails.
pub open spec fn history_spec(
    f: Seq<char>,
    rs: Seq<LocModel>,
    ci: bool,
    fs: Seq<Seq<char>>,
) -> OutcomeModel {
    let nf = sep_norm(f);
    if has_char(nf, '/') {
        let segs = segments(nf);
        if segs.len() == 0 {
            OutcomeModel::NotFound
        } else {
            let first = fold_case(segs[0], ci);
            match scan_multi(rs, first, segs.drop_first(), ci, fs) {
                Some(p) => OutcomeModel::HistoryHit(p),
                None => OutcomeModel::NotFound,
            }
        }
    } else {
        match scan_single(rs, fold_case(nf, ci), ci) {
            Some(p) => if on_disk(fs, p) {
                OutcomeModel::HistoryHit(p)
            } else {
                OutcomeModel::DeadEntry(p)
            },
            None => OutcomeModel::NotFound,
        }
    }
}

/// Scans the records in stored order for a separator-free fragment.
fn scan_single_exec(records: &Vec<Location>, seg: &String, ci: bool) -> (r: Option<String>)
    ensures
        r.deep_view() == scan_single(records.deep_view(), seg@, ci),
{
    let ghost rs = records.deep_view();
    let mut i: usize = 0;
    proof {
        assert(rs.skip(0) =~= rs);
    }
    while i < records.len()
        invariant
            i <= records@.len(),
            rs == records.deep_view(),
            rs.len() == records@.len(),
            scan_single(rs, seg@, ci) == scan_single(rs.skip(i as int), seg@, ci),
        decreases records@.len() - i,
    {
        proof {
            assert(rs.skip(i as int)[0] == rs[i as int]);
            assert(rs.skip(i as int).drop_first() =~= rs.skip(i + 1));
            assert(rs[i as int] == records@[i as int]@);
        }
        let loc = &records[i];
        if ends_with_seg_exec(loc.path.as_str(), seg, ci) {
            return Some(loc.path.clone());
        }
        i = i + 1;
    }
    proof {
        assert(rs.skip(rs.len() as int) =~= Seq::<LocModel>::empty());
    }
    None
}

/// Scans the records in stored order for a multi-segment fragment,
/// re-joining the trailing segments against the snapshot.
fn scan_multi_exec(
    records: &Vec<Location>,
    first: &String,
    rest: &Vec<String>,
    ci: bool,
    fs: &FsView,
) -> (r: Option<String>)
    ensures
        r.deep_view() == scan_multi(records.deep_view(), first@, rest.deep_view(), ci, fs@),
{
    let ghost rs = records.deep_view();
    let ghost rv = rest.deep_view();
    let mut i: usize = 0;
    proof {
        assert(rs.skip(0) =~= rs);
    }
    while i < records.len()
        invariant
            i <= records@.len(),
            rs == records.deep_view(),
            rv == rest.deep_view(),
            rs.len() == records@.len(),
            scan_multi(rs, first@, rv, ci, fs@) == scan_multi(
                rs.skip(i as int),
                first@,
                rv,
                ci,
                fs@,
            ),
        decreases records@.len() - i,
    {
        proof {
            assert(rs.skip(i as int)[0] == rs[i as int]);
            assert(rs.skip(i as int).drop_first() =~= rs.skip(i + 1));
            assert(rs[i as int] == records@[i as int]@);
        }
        let loc = &records[i];
        if ends_with_seg_exec(loc.path.as_str(), first, ci) {
            match try_chain(&loc.path, rest, fs) {
                Some(p) => {
                    return Some(p);
                },
                None => {},
            }
        }
        i = i + 1;
    }
    proof {
        assert(rs.skip(rs.len() as int) =~= Seq::<LocModel>::empty());
    }
    None
}

/// Runs the history rule against the stored records.
pub fn history_search(fragment: &str, records: &Vec<Location>, ci: bool, fs: &FsView) -> (o:
    Outcome)
    ensures
        o@ == history_spec(fragment@, records.deep_view(), ci, fs@),
{
    let nf = normalize_seps(fragment);
    if contains_char(nf.as_str(), '/') {
        let segs = segments_exec(nf.as_str());
        if segs.len() == 0 {
            return Outcome::NotFound;
        }
        let first = fold_lower(segs[0].as_str(), ci);
        let mut rest: Vec<String> = Vec::new();
        let mut k: usize = 1;
        proof {
            assert(rest.deep_view() =~= segs.deep_view().subrange(1, 1));
            assert(segs.deep_view().len() == segs@.len());
        }
        while k < segs.len()
            invariant
                1 <= k <= segs@.len(),
                segs.deep_view().len() == segs@.len(),
                rest.deep_view() == segs.deep_view().subrange(1, k as int),
            decreases segs@.len() - k,
        {
            let ghost pre = rest.deep_view();
            rest.push(segs[k].clone());
            proof {
                assert(rest.deep_view() =~= pre.push(segs@[k as int]@));
                assert(segs.deep_view().subrange(1, k + 1) =~= segs.deep_view().subrange(
                    1,
                    k as int,
                ).push(segs.deep_view()[k as int]));
            }
            k = k + 1;
        }
        proof {
            assert(segs.deep_view().subrange(1, segs@.len() as int) =~= segs.deep_view()
                .drop_first());
            assert(segs.deep_view()[0] == segs@[0]@);
        }
        match scan_multi_exec(records, &first, &rest, ci, fs) {
            Some(p) => Outcome::HistoryHit(p),
            None => Outcome::NotFound,
        }
    } else {
        let segf = fold_lower(nf.as_str(), ci);
        match scan_single_exec(records, &segf, ci) {
            Some(p) => {
                if on_disk_exec(fs, &p) {
                    Outcome::HistoryHit(p)
                } else {
                    Outcome::DeadEntry(p)
                }
            },
            None => Outcome::NotFound,
        }
    }
}

} // verus!

verus! {

pub open spec fn is_alpha(c: char) -> bool {
    ('a' <= c && c <= 'z') || ('A' <= c && c <= 'Z')
}

/// A two-character fragment naming a drive outright, such as `C:`.
pub open spec fn is_drive_pair(f: Seq<char>) -> bool {
    f.len() == 2 && f[1] == ':'
}

/// A single letter, read as a drive only after the history search fails.
pub open spec fn is_drive_letter(f: Seq<char>) -> bool {
    f.len() == 1 && is_alpha(f[0])
}

/// The drive-root path a drive-shaped fragment stands for.
pub open spec fn drive_root_spec(f: Seq<char>) -> Seq<char> {
    if is_drive_pair(f) {
        f + seq!['/']
    } else if is_drive_letter(f) {
        seq![lower_char(f[0]), ':', '/']
    } else {
        Seq::empty()
    }
}

/// The drive-root path the caller should canonicalize for a drive-shaped
/// fragment, if the fragment has such a shape at all.
pub fn drive_root_candidate(fragment: &str) -> (r: Option<String>)
    ensures
        match r {
            Some(p) => (is_drive_pair(fragment@) || is_drive_letter(fragment@)) && p@
                == drive_root_spec(fragment@),
            None => !is_drive_pair(fragment@) && !is_drive_letter(fragment@),
        },
{
    let n = fragment.unicode_len();
    if n == 2 && fragment.get_char(1) == ':' {
        let mut out = fragment.to_owned();
        push_char(&mut out, '/');
        proof {
            assert(out@ =~= drive_root_spec(fragment@));
        }
        Some(out)
    } else if n == 1 {
        let c = fragment.get_char(0);
        if ('a' <= c && c <= 'z') || ('A' <= c && c <= 'Z') {
            let mut out = String::new();
            push_char(&mut out, char_to_lower(c));
            push_char(&mut out, ':');
            push_char(&mut out, '/');
            proof {
                assert(out@ =~= drive_root_spec(fragment@));
            }
            Some(out)
        } else {
            None
        }
    } else {
        None
    }
}

/// The path rule 1 canonicalizes: the fragment itself when it already
/// denotes an existing entry, else the fragment joined onto the working
/// directory.
pub open spec fn direct_target_spec(f: Seq<char>, cwd: Seq<char>, frag_exists: bool) -> Seq<
    char,
> {
    if frag_exists {
        f
    } else {
        join_one(cwd, f)
    }
}

/// Builds the path whose canonicalization decides direct resolution;
/// `fragment_exists` is the caller's answer to whether the fragment alone
/// already denotes an existing entry.
pub fn direct_target(fragment: &str, cwd: &str, fragment_exists: bool) -> (r: String)
    ensures
        r@ == direct_target_spec(fragment@, cwd@, fragment_exists),
{
    if fragment_exists {
        fragment.to_owned()
    } else {
        join_one_exec(cwd, fragment)
    }
}

/// The whole resolution rule, in precedence order: the canonicalized
/// direct join wins outright (a directory is a hit, a regular file is
/// rejected); then an explicit `X:` drive fragment; then the history
/// search; then a single-letter drive fallback; then nothing.
pub open spec fn resolve_spec(
    cfg: Config,
    f: Seq<char>,
    rs: Seq<LocModel>,
    direct: CanonModel,
    drive: Option<Seq<char>>,
    fs: Seq<Seq<char>>,
) -> OutcomeModel {
    match direct {
        CanonModel::Dir(p) => OutcomeModel::DirectHit(p),
        CanonModel::File(p) => OutcomeModel::FileRejected(p),
        CanonModel::Missing => if cfg.drive_letters && is_drive_pair(f) {
            match drive {
                Some(p) => OutcomeModel::DriveRoot(p),
                None => OutcomeModel::DriveUnavailable(drive_root_spec(f)),
            }
        } else {
            let h = history_spec(f, rs, cfg.case_insensitive, fs);
            if h is NotFound && cfg.drive_letters && is_drive_letter(f) {
                match drive {
                    Some(p) => OutcomeModel::DriveRoot(p),
                    None => OutcomeModel::DriveUnavailable(drive_root_spec(f)),
                }
            } else {
                h
            }
        },
    }
}

/// Resolves one fragment against the stored records and the caller's
/// filesystem facts. `direct` is the canonicalization of the direct join
/// (see [`direct_target`]); `drive` is the canonicalized drive root for a
/// drive-shaped fragment (see [`drive_root_candidate`]), `None` when that
/// canonicalization failed or was never attempted.
pub fn resolve(
    cfg: &Config,
    fragment: &str,
    records: &Vec<Location>,
    direct: &CanonStatus,
    drive: &Option<String>,
    fs: &FsView,
) -> (o: Outcome)
    ensures
        o@ == resolve_spec(*cfg, fragment@, records.deep_view(), direct@, drive.deep_view(), fs@),
{
    match direct {
        CanonStatus::Dir(p) => Outcome::DirectHit(p.clone()),
        CanonStatus::File(p) => Outcome::FileRejected(p.clone()),
        CanonStatus::Missing => {
            let n = fragment.unicode_len();
            let pair = n == 2 && fragment.get_char(1) == ':';
            if cfg.drive_letters && pair {
                match drive {
                    Some(p) => Outcome::DriveRoot(p.clone()),
                    None => {
                        match drive_root_candidate(fragment) {
                            Some(root) => Outcome::DriveUnavailable(root),
                            None => Outcome::NotFound,  // unreachable: the shape was just checked
                        }
                    },
                }
            } else {
                let h = history_search(fragment, records, cfg.case_insensitive, fs);
                let miss = match &h {
                    Outcome::NotFound => true,
                    _ => false,
                };
                let letter = if n == 1 {
                    let c = fragment.get_char(0);
                    ('a' <= c && c <= 'z') || ('A' <= c && c <= 'Z')
                } else {
                    false
                };
                if miss && cfg.drive_letters && letter {
                    match drive {
                        Some(p) => Outcome::DriveRoot(p.clone()),
                        None => {
                            match drive_root_candidate(fragment) {
                                Some(root) => Outcome::DriveUnavailable(root),
                                None => Outcome::NotFound,  // unreachable: the shape was just checked
                            }
                        },
                    }
                } else {
                    h
                }
            }
        },
    }
}

} // verus!

verus! {

/// Every intermediate join of `segs` onto `base`, the bare base included.
pub open spec fn chain_points(base: Seq<char>, segs: Seq<Seq<char>>) -> Seq<Seq<char>>
    decreases segs.len(),
{
    if segs.len() == 0 {
        seq![base]
    } else {
        seq![base] + chain_points(join_one(base, segs[0]), segs.drop_first())
    }
}

/// The probe set of a multi-segment fragment: all chain points of every
/// record.
pub open spec fn probes_multi(rs: Seq<LocModel>, rest: Seq<Seq<char>>) -> Seq<Seq<char>>
    decreases rs.len(),
{
    if rs.len() == 0 {
        Seq::empty()
    } else {
        chain_points(rs[0].path, rest) + probes_multi(rs.drop_first(), rest)
    }
}

/// The probe set of a separator-free fragment: every stored path.
pub open spec fn probes_single(rs: Seq<LocModel>) -> Seq<Seq<char>> {
    rs.map_values(|l: LocModel| l.path)
}

/// Every path whose existence the history rule may consult for this
/// fragment and record set.
pub open spec fn probe_spec(f: Seq<char>, rs: Seq<LocModel>) -> Seq<Seq<char>> {
    let nf = sep_norm(f);
    if has_char(nf, '/') {
        let segs = segments(nf);
        if segs.len() == 0 {
            Seq::empty()
        } else {
            probes_multi(rs, segs.drop_first())
        }
    } else {
        probes_single(rs)
    }
}

/// All intermediate joins of `rest` onto `base`, the base first.
fn chain_points_exec(base: &String, rest: &Vec<String>) -> (v: Vec<String>)
    ensures
        v.deep_view() == chain_points(base@, rest.deep_view()),
{
    let ghost dv = rest.deep_view();
    let mut out: Vec<String> = Vec::new();
    let mut cur = base.clone();
    let mut k: usize = 0;
    proof {
        assert(out.deep_view() =~= Seq::<Seq<char>>::empty());
        assert(dv.skip(0) =~= dv);
    }
    while k < rest.len()
        invariant
            k <= rest@.len(),
            dv == rest.deep_view(),
            dv.len() == rest@.len(),
            chain_points(base@, dv) == out.deep_view() + chain_points(cur@, dv.skip(k as int)),
        decreases rest@.len() - k,
    {
        proof {
            assert(dv.skip(k as int)[0] == dv[k as int]);
            assert(dv.skip(k as int).drop_first() =~= dv.skip(k + 1));
            assert(dv[k as int] == rest@[k as int]@);
        }
        let ghost pre = out.deep_view();
        out.push(cur.clone());
        let next = join_one_exec(cur.as_str(), rest[k].as_str());
        proof {
            assert(out.deep_view() =~= pre.push(cur@));
            assert(pre + (seq![cur@] + chain_points(next@, dv.skip(k + 1))) =~= pre.push(cur@)
                + chain_points(next@, dv.skip(k + 1)));
        }
        cur = next;
        k = k + 1;
    }
    proof {
        assert(dv.skip(dv.len() as int) =~= Seq::<Seq<char>>::empty());
    }
    let ghost pre = out.deep_view();
    out.push(cur);
    proof {
        assert(out.deep_view() =~= pre + seq![chain_points(base@, dv).last()]);
        assert(out.deep_view() =~= chain_points(base@, dv));
    }
    out
}

/// Lists every path the resolver may ask the filesystem about for this
/// fragment, so the caller can check them and fill an [`FsView`].
pub fn probe_paths(fragment: &str, records: &Vec<Location>) -> (v: Vec<String>)
    ensures
        v.deep_view() == probe_spec(fragment@, records.deep_view()),
{
    let ghost rs = records.deep_view();
    let nf = normalize_seps(fragment);
    if contains_char(nf.as_str(), '/') {
        let segs = segments_exec(nf.as_str());
        if segs.len() == 0 {
            let out: Vec<String> = Vec::new();
            proof {
                assert(out.deep_view() =~= probe_spec(fragment@, rs));
            }
            return out;
        }
        let mut rest: Vec<String> = Vec::new();
        let mut k: usize = 1;
        proof {
            assert(rest.deep_view() =~= segs.deep_view().subrange(1, 1));
            assert(segs.deep_view().len() == segs@.len());
        }
        while k < segs.len()
            invariant
                1 <= k <= segs@.len(),
                segs.deep_view().len() == segs@.len(),
                rest.deep_view() == segs.deep_view().subrange(1, k as int),
            decreases segs@.len() - k,
        {
            let ghost pre = rest.deep_view();
            rest.push(segs[k].clone());
            proof {
                assert(rest.deep_view() =~= pre.push(segs@[k as int]@));
                assert(segs.deep_view().subrange(1, k + 1) =~= segs.deep_view().subrange(
                    1,
                    k as int,
                ).push(segs.deep_view()[k as int]));
            }
            k = k + 1;
        }
        proof {
            assert(segs.deep_view().subrange(1, segs@.len() as int) =~= segs.deep_view()
                .drop_first());
        }
        let ghost rv = rest.deep_view();
        let mut out: Vec<String> = Vec::new();
        let mut i: usize = 0;
        proof {
            assert(out.deep_view() =~= Seq::<Seq<char>>::empty());
            assert(rs.skip(0) =~= rs);
            assert(Seq::<Seq<char>>::empty() + probes_multi(rs, rv) =~= probes_multi(rs, rv));
        }
        while i < records.len()
            invariant
                i <= records@.len(),
                rs == records.deep_view(),
                rv == rest.deep_view(),
                rs.len() == records@.len(),
                probes_multi(rs, rv) == out.deep_view() + probes_multi(rs.skip(i as int), rv),
            decreases records@.len() - i,
        {
            proof {
                assert(rs.skip(i as int)[0] == rs[i as int]);
                assert(rs.skip(i as int).drop_first() =~= rs.skip(i + 1));
                assert(rs[i as int] == records@[i as int]@);
            }
            let pts = chain_points_exec(&records[i].path, &rest);
            let mut t: usize = 0;
            let ghost entry = out.deep_view();
            while t < pts.len()
                invariant
                    t <= pts@.len(),
                    pts.deep_view().len() == pts@.len(),
                    out.deep_view() == entry + pts.deep_view().take(t as int),
                decreases pts@.len() - t,
            {
                let ghost pre = out.deep_view();
                out.push(pts[t].clone());
                proof {
                    assert(out.deep_view() =~= pre.push(pts@[t as int]@));
                    assert(pts.deep_view().take(t + 1) =~= pts.deep_view().take(t as int).push(
                        pts.deep_view()[t as int],
                    ));
                    assert(entry + pts.deep_view().take(t + 1) =~= (entry + pts.deep_view().take(
                        t as int,
                    )).push(pts.deep_view()[t as int]));
                }
                t = t + 1;
            }
            proof {
                assert(pts.deep_view().take(pts@.len() as int) =~= pts.deep_view());
                assert((entry + pts.deep_view()) + probes_multi(rs.skip(i + 1), rv) =~= entry + (
                pts.deep_view() + probes_multi(rs.skip(i + 1), rv)));
            }
            i = i + 1;
        }
        proof {
            assert(rs.skip(rs.len() as int) =~= Seq::<LocModel>::empty());
            assert(probes_multi(Seq::<LocModel>::empty(), rv) == Seq::<Seq<char>>::empty());
            assert(out.deep_view() + Seq::<Seq<char>>::empty() =~= out.deep_view());
        }
        out
    } else {
        let mut out: Vec<String> = Vec::new();
        let mut i: usize = 0;
        proof {
            assert(out.deep_view() =~= probes_single(rs.take(0)));
        }
        while i < records.len()
            invariant
                i <= records@.len(),
                rs == records.deep_view(),
                rs.len() == records@.len(),
                out.deep_view() == probes_single(rs.take(i as int)),
            decreases records@.len() - i,
        {
            let ghost pre = out.deep_view();
            out.push(records[i].path.clone());
            proof {
                assert(rs[i as int] == records@[i as int]@);
                assert(out.deep_view() =~= pre.push(rs[i as int].path));
                assert(probes_single(rs.take(i + 1)) =~= pre.push(rs[i as int].path));
            }
            i = i + 1;
        }
        proof {
            assert(rs.take(rs.len() as int) =~= rs);
        }
        out
    }
}

} // verus!
