//! The version resolver's verified core.
//!
//! Version resolution is delegated to the package manager's own resolver: a
//! throwaway manifest declares every installed package as a dependency with
//! an unconstrained version requirement, the resolver locks it, and the lock
//! file's package list tells which version each package resolves to. This
//! module synthesizes the manifest text, reads the package entries back out
//! of the lock file's canonical layout, and extracts one resolved version per
//! requested package; the subprocess and the scoped temporary directory that
//! carry those bytes to the package manager and back live with the binary
//! around the library.

use vstd::prelude::*;

use crate::listing::Crate;
use crate::text::{
    chomp, copy_range, eq_bytes, extend_bytes, find_byte, find_byte_from, lemma_find_byte,
    split_lines, split_lines_from, CR, NL,
};

verus! {

/// Byte value of the double quote.
pub const QUOTE: u8 = 34;

/// Byte value of the opening square bracket, which opens a lock-file table
/// header line.
pub const LBRACKET: u8 = 91;

/// One package entry of the lock file: the entry's name, and its version
/// when the entry carries one.
#[derive(Debug, Clone, PartialEq, Eq)]
pub struct LockPackage {
    pub name: Vec<u8>,
    pub version: Option<Vec<u8>>,
}

/// Mathematical form of a lock-file package entry.
pub struct LockPkgView {
    pub name: Seq<u8>,
    pub version: Option<Seq<u8>>,
}

impl View for LockPackage {
    type V = LockPkgView;

    open spec fn view(&self) -> LockPkgView {
        LockPkgView {
            name: self.name@,
            version: match self.version {
                Some(v) => Some(v@),
                None => None,
            },
        }
    }
}

/// The bytes of the table header that opens a package entry.
pub open spec fn package_header() -> Seq<u8> {
    seq![91u8, 91, 112, 97, 99, 107, 97, 103, 101, 93, 93]
}

/// The bytes that a name key-value line begins with, opening quote included.
pub open spec fn name_prefix() -> Seq<u8> {
    seq![110u8, 97, 109, 101, 32, 61, 32, 34]
}

/// The bytes that a version key-value line begins with.
pub open spec fn version_prefix() -> Seq<u8> {
    seq![118u8, 101, 114, 115, 105, 111, 110, 32, 61, 32, 34]
}

/// The quoted value of a key-value line beginning with `prefix`, if the line
/// is one: the closing quote must end the line, with no quote in between.
pub open spec fn kv_value(l: Seq<u8>, prefix: Seq<u8>) -> Option<Seq<u8>> {
    if l.len() > prefix.len() && l.subrange(0, prefix.len() as int) == prefix && find_byte(
        l,
        prefix.len() as int,
        QUOTE,
    ) == l.len() - 1 {
        Some(l.subrange(prefix.len() as int, l.len() - 1))
    } else {
        None
    }
}

/// What one lock-file line is to the reader: the package table header, some
/// other table header, a name or version key-value line, or a line the
/// reader passes over.
pub enum LockLine {
    Header,
    OtherHeader,
    Name { value: Seq<u8> },
    Version { value: Seq<u8> },
    Other,
}

/// Classifies one lock-file line.
pub open spec fn classify_line(l: Seq<u8>) -> LockLine {
    if l == package_header() {
        LockLine::Header
    } else if l.len() > 0 && l[0] == LBRACKET {
        LockLine::OtherHeader
    } else {
        match kv_value(l, name_prefix()) {
            Some(value) => LockLine::Name { value },
            None => match kv_value(l, version_prefix()) {
                Some(value) => LockLine::Version { value },
                None => LockLine::Other,
            },
        }
    }
}

/// The lock reader's state: whether the reader stands inside a package
/// table, whether that table has named its entry yet, and the entries read
/// so far.
pub struct LockState {
    pub in_pkg: bool,
    pub has_name: bool,
    pub entries: Seq<LockPkgView>,
}

/// One step of the lock reader. A package header opens a package table; any
/// other header closes it. Inside a package table a name line opens an entry
/// and a version line fills the version of the entry the table named.
/// Everything else is passed over.
pub open spec fn lock_step(st: LockState, l: Seq<u8>) -> LockState {
    match classify_line(l) {
        LockLine::Header => LockState { in_pkg: true, has_name: false, entries: st.entries },
        LockLine::OtherHeader => LockState {
            in_pkg: false,
            has_name: false,
            entries: st.entries,
        },
        LockLine::Name { value } => if st.in_pkg {
            LockState {
                in_pkg: true,
                has_name: true,
                entries: st.entries.push(LockPkgView { name: value, version: None }),
            }
        } else {
            st
        },
        LockLine::Version { value } => if st.in_pkg && st.has_name && st.entries.len() > 0 {
            LockState {
                in_pkg: true,
                has_name: true,
                entries: st.entries.update(
                    st.entries.len() - 1,
                    LockPkgView { name: st.entries.last().name, version: Some(value) },
                ),
            }
        } else {
            st
        },
        LockLine::Other => st,
    }
}

/// The lock reader folded over the lines from line `i` on.
pub open spec fn lock_fold(lines: Seq<Seq<u8>>, i: int, st: LockState) -> LockState
    decreases lines.len() - i,
{
    if i < 0 || i >= lines.len() {
        st
    } else {
        lock_fold(lines, i + 1, lock_step(st, lines[i]))
    }
}

/// The package entries of a lock file's text.
pub open spec fn lock_entries(text: Seq<u8>) -> Seq<LockPkgView> {
    lock_fold(
        split_lines(text),
        0,
        LockState { in_pkg: false, has_name: false, entries: Seq::empty() },
    ).entries
}

/// Whether `l` is exactly the package table header.
fn is_package_header(l: &[u8]) -> (r: bool)
    ensures
        r == (l@ == package_header()),
{
    let r = l.len() == 11 && l[0] == 91 && l[1] == 91 && l[2] == 112 && l[3] == 97 && l[4] == 99
        && l[5] == 107 && l[6] == 97 && l[7] == 103 && l[8] == 101 && l[9] == 93 && l[10] == 93;
    proof {
        if r {
            assert(l@ =~= package_header());
        }
        if l@ == package_header() {
            assert(l@.len() == 11);
            assert(forall|k: int| 0 <= k < 11 ==> l@[k] == package_header()[k]);
        }
    }
    r
}

/// The value of a name key-value line, if `l` is one.
fn read_name_value(l: &[u8]) -> (r: Option<Vec<u8>>)
    ensures
        match r {
            Some(v) => kv_value(l@, name_prefix()) == Some(v@),
            None => kv_value(l@, name_prefix()) is None,
        },
{
    let pref_ok = l.len() > 8 && l[0] == 110 && l[1] == 97 && l[2] == 109 && l[3] == 101 && l[4]
        == 32 && l[5] == 61 && l[6] == 32 && l[7] == 34;
    proof {
        if pref_ok {
            assert(l@.subrange(0, 8) =~= name_prefix());
        } else {
            if l@.len() > 8 && l@.subrange(0, 8) == name_prefix() {
                assert(forall|k: int| 0 <= k < 8 ==> l@[k] == name_prefix()[k]);
            }
        }
    }
    if !pref_ok {
        return None;
    }
    let q = find_byte_from(l, 8, QUOTE);
    if q != l.len() - 1 {
        return None;
    }
    Some(copy_range(l, 8, l.len() - 1))
}

/// The value of a version key-value line, if `l` is one.
fn read_version_value(l: &[u8]) -> (r: Option<Vec<u8>>)
    ensures
        match r {
            Some(v) => kv_value(l@, version_prefix()) == Some(v@),
            None => kv_value(l@, version_prefix()) is None,
        },
{
    let pref_ok = l.len() > 11 && l[0] == 118 && l[1] == 101 && l[2] == 114 && l[3] == 115 && l[4]
        == 105 && l[5] == 111 && l[6] == 110 && l[7] == 32 && l[8] == 61 && l[9] == 32 && l[10]
        == 34;
    proof {
        if pref_ok {
            assert(l@.subrange(0, 11) =~= version_prefix());
        } else {
            if l@.len() > 11 && l@.subrange(0, 11) == version_prefix() {
                assert(forall|k: int| 0 <= k < 11 ==> l@[k] == version_prefix()[k]);
            }
        }
    }
    if !pref_ok {
        return None;
    }
    let q = find_byte_from(l, 11, QUOTE);
    if q != l.len() - 1 {
        return None;
    }
    Some(copy_range(l, 11, l.len() - 1))
}

/// The view of a sequence of lock-file entries.
pub open spec fn lock_views(s: Seq<LockPackage>) -> Seq<LockPkgView> {
    Seq::new(s.len(), |i: int| s[i]@)
}

/// Reads the package entries out of a lock file's text. The reader follows
/// the canonical layout the package manager writes: each `[[package]]` table
/// names its entry first and gives its version after; lines that are neither
/// table headers nor such key-value lines are passed over.
pub fn parse_lock(text: &[u8]) -> (r: Vec<LockPackage>)
    ensures
        lock_views(r@) == lock_entries(text@),
{
    let ghost lines = split_lines(text@);
    let mut entries: Vec<LockPackage> = Vec::new();
    let mut in_pkg = false;
    let mut has_name = false;
    let ghost mut k: int = 0;
    let mut from: usize = 0;
    proof {
        assert(lines.skip(0) =~= lines);
        assert(lock_views(entries@) =~= Seq::<LockPkgView>::empty());
    }
    while from < text.len()
        invariant
            0 <= from <= text@.len(),
            0 <= k <= lines.len(),
            split_lines_from(text@, from as int) =~= lines.skip(k),
            lock_fold(lines, k, LockState { in_pkg, has_name, entries: lock_views(entries@) })
                == lock_fold(
                lines,
                0,
                LockState { in_pkg: false, has_name: false, entries: Seq::empty() },
            ),
            has_name ==> entries@.len() > 0,
        decreases text@.len() - from,
    {
        let e = find_byte_from(text, from, NL);
        proof {
            lemma_find_byte(text@, from as int, NL);
            assert(lines.skip(k).len() > 0);
            assert(k < lines.len());
        }
        let mut line = copy_range(text, from, e);
        if line.len() > 0 && line[line.len() - 1] == CR {
            line.pop();
            proof {
                let raw = text@.subrange(from as int, e as int);
                assert(line@ =~= raw.take(raw.len() - 1));
            }
        }
        proof {
            let raw = text@.subrange(from as int, e as int);
            assert(line@ == chomp(raw));
            assert(lines.skip(k)[0] == chomp(raw));
            assert(lines[k] == chomp(raw));
        }
        let ghost st = LockState { in_pkg, has_name, entries: lock_views(entries@) };
        if is_package_header(line.as_slice()) {
            in_pkg = true;
            has_name = false;
            proof {
                assert(lock_step(st, lines[k]) == (LockState {
                    in_pkg: true,
                    has_name: false,
                    entries: lock_views(entries@),
                }));
            }
        } else if line.len() > 0 && line.as_slice()[0] == LBRACKET {
            in_pkg = false;
            has_name = false;
            proof {
                assert(classify_line(lines[k]) == (LockLine::OtherHeader));
                assert(lock_step(st, lines[k]) == (LockState {
                    in_pkg: false,
                    has_name: false,
                    entries: lock_views(entries@),
                }));
            }
        } else {
            match read_name_value(line.as_slice()) {
                Some(value) => {
                    proof {
                        assert(classify_line(lines[k]) == (LockLine::Name { value: value@ }));
                    }
                    if in_pkg {
                        let ghost old_entries = entries@;
                        entries.push(LockPackage { name: value, version: None });
                        has_name = true;
                        proof {
                            assert(lock_views(entries@) =~= lock_views(old_entries).push(
                                entries@.last()@,
                            ));
                        }
                    }
                },
                None => {
                    match read_version_value(line.as_slice()) {
                        Some(value) => {
                            proof {
                                assert(classify_line(lines[k]) == (LockLine::Version {
                                    value: value@,
                                }));
                            }
                            if in_pkg && has_name {
                                let ghost old_entries = entries@;
                                match entries.pop() {
                                    Some(mut last) => {
                                        last.version = Some(value);
                                        entries.push(last);
                                    },
                                    None => {
                                        proof {
                                            assert(false);
                                        }
                                    },
                                }
                                proof {
                                    assert(lock_views(entries@) =~= lock_views(
                                        old_entries,
                                    ).update(
                                        old_entries.len() - 1,
                                        LockPkgView {
                                            name: lock_views(old_entries).last().name,
                                            version: Some(value@),
                                        },
                                    ));
                                }
                            }
                        },
                        None => {
                            proof {
                                assert(classify_line(lines[k]) == (LockLine::Other));
                                assert(lock_step(st, lines[k]) == st);
                            }
                        },
                    }
                },
            }
        }
        proof {
            assert(lock_fold(lines, k + 1, LockState {
                in_pkg,
                has_name,
                entries: lock_views(entries@),
            }) == lock_fold(
                lines,
                0,
                LockState { in_pkg: false, has_name: false, entries: Seq::empty() },
            ));
            k = k + 1;
            if e < text@.len() {
                assert(lines.skip(k - 1).skip(1) =~= lines.skip(k));
                assert(split_lines_from(text@, e + 1) =~= lines.skip(k));
            } else {
                assert(lines.skip(k - 1).len() == 1);
                assert(k == lines.len());
                assert(lines.skip(k) =~= Seq::<Seq<u8>>::empty());
                assert(split_lines_from(text@, text@.len() as int) =~= lines.skip(k));
            }
        }
        if e < text.len() {
            from = e + 1;
        } else {
            from = text.len();
        }
    }
    proof {
        assert(split_lines_from(text@, from as int).len() == 0);
        assert(lines.skip(k).len() == 0);
        assert(k == lines.len());
    }
    entries
}

/// The last entry of `entries` whose name is `name`, if any: when several
/// entries share a name, the one seen last in artifact order wins.
pub open spec fn last_match(entries: Seq<LockPkgView>, name: Seq<u8>) -> Option<LockPkgView>
    decreases entries.len(),
{
    if entries.len() == 0 {
        None
    } else if entries.last().name == name {
        Some(entries.last())
    } else {
        last_match(entries.drop_last(), name)
    }
}

/// How many entries of `entries` carry the name `name`.
pub open spec fn matches_count(entries: Seq<LockPkgView>, name: Seq<u8>) -> int
    decreases entries.len(),
{
    if entries.len() == 0 {
        0
    } else {
        matches_count(entries.drop_last(), name) + if entries.last().name == name {
            1int
        } else {
            0int
        }
    }
}

/// The names of a sequence of records.
pub open spec fn crate_names(s: Seq<Crate>) -> Seq<Seq<u8>> {
    Seq::new(s.len(), |i: int| s[i].name@)
}

/// What extracting the requested names from the lock entries yields: the
/// first requested name with no entry or with an entry that lacks a version
/// fails the extraction; otherwise every name gets the version of its last
/// matching entry, and the names matched by more than one entry are listed
/// for a disambiguation warning, in request order.
pub enum ResolveSpec {
    MissingPkg { name: Seq<u8> },
    MissingVer { name: Seq<u8> },
    Done { versions: Seq<Seq<u8>>, ambiguous: Seq<Seq<u8>> },
}

/// The extraction, folded over the requested names.
pub open spec fn resolve_all(entries: Seq<LockPkgView>, reqs: Seq<Seq<u8>>) -> ResolveSpec
    decreases reqs.len(),
{
    if reqs.len() == 0 {
        ResolveSpec::Done { versions: Seq::empty(), ambiguous: Seq::empty() }
    } else {
        match last_match(entries, reqs[0]) {
            None => ResolveSpec::MissingPkg { name: reqs[0] },
            Some(e) => match e.version {
                None => ResolveSpec::MissingVer { name: reqs[0] },
                Some(v) => match resolve_all(entries, reqs.skip(1)) {
                    ResolveSpec::Done { versions, ambiguous } => ResolveSpec::Done {
                        versions: seq![v] + versions,
                        ambiguous: (if matches_count(entries, reqs[0]) >= 2 {
                            seq![reqs[0]]
                        } else {
                            Seq::empty()
                        }) + ambiguous,
                    },
                    failed => failed,
                },
            },
        }
    }
}

/// A package name paired with the version the resolver chose for it.
#[derive(Debug, Clone, PartialEq, Eq)]
pub struct ResolvedVersion {
    pub name: Vec<u8>,
    pub version: Vec<u8>,
}

/// Mathematical form of a resolved version.
pub struct ResolvedView {
    pub name: Seq<u8>,
    pub version: Seq<u8>,
}

impl View for ResolvedVersion {
    type V = ResolvedView;

    open spec fn view(&self) -> ResolvedView {
        ResolvedView { name: self.name@, version: self.version@ }
    }
}

/// A requested package that the lock artifact cannot answer for: no entry
/// carries its name, or the entry that does carries no version. Fatal.
#[derive(Debug)]
pub enum ResolveError {
    MissingPackage(Vec<u8>),
    MissingVersion(Vec<u8>),
}

/// The extraction's result: one resolved version per requested name, in
/// request order, and the names whose entry had to be disambiguated.
pub struct ResolveOutcome {
    pub versions: Vec<ResolvedVersion>,
    pub ambiguous: Vec<Vec<u8>>,
}

/// Scans the entries for `name`: the index of the last match and how many
/// entries match.
fn find_last_match(entries: &Vec<LockPackage>, name: &[u8]) -> (r: (Option<usize>, usize))
    ensures
        match r.0 {
            Some(j) => j < entries@.len() && last_match(lock_views(entries@), name@) == Some(
                lock_views(entries@)[j as int],
            ),
            None => last_match(lock_views(entries@), name@) is None,
        },
        r.1 == matches_count(lock_views(entries@), name@),
{
    let ghost lv = lock_views(entries@);
    let mut best: Option<usize> = None;
    let mut cnt: usize = 0;
    let mut j: usize = 0;
    proof {
        assert(lv.take(0) =~= Seq::<LockPkgView>::empty());
    }
    while j < entries.len()
        invariant
            0 <= j <= entries@.len(),
            lv == lock_views(entries@),
            cnt <= j,
            cnt == matches_count(lv.take(j as int), name@),
            match best {
                Some(b) => b < j && last_match(lv.take(j as int), name@) == Some(lv[b as int]),
                None => last_match(lv.take(j as int), name@) is None,
            },
        decreases entries@.len() - j,
    {
        proof {
            assert(lv.take(j + 1) =~= lv.take(j as int).push(lv[j as int]));
            assert(lv.take(j + 1).drop_last() =~= lv.take(j as int));
            assert(lv.take(j + 1).last() == lv[j as int]);
        }
        let ent = &entries[j];
        if eq_bytes(ent.name.as_slice(), name) {
            assert(lv[j as int].name == name@);
            best = Some(j);
            cnt = cnt + 1;
        } else {
            assert(lv[j as int].name != name@);
        }
        j = j + 1;
    }
    proof {
        assert(lv.take(entries@.len() as int) =~= lv);
    }
    (best, cnt)
}

/// Copies a byte vector.
fn clone_bytes(v: &Vec<u8>) -> (r: Vec<u8>)
    ensures
        r@ == v@,
{
    let r = copy_range(v.as_slice(), 0, v.len());
    assert(v@.subrange(0, v@.len() as int) =~= v@);
    r
}

/// Extracts, for every requested record, the version its name resolves to
/// in the lock entries: the version of the last entry with that name. Fails
/// on the first name with no entry or with an entry lacking a version, and
/// reports the names matched by more than one entry, in request order.
pub fn resolved_versions(requested: &Vec<Crate>, entries: &Vec<LockPackage>) -> (r: Result<
    ResolveOutcome,
    ResolveError,
>)
    ensures
        match r {
            Ok(out) => {
                &&& resolve_all(lock_views(entries@), crate_names(requested@))
                    matches ResolveSpec::Done { versions, ambiguous }
                &&& out.versions@.len() == requested@.len()
                &&& forall|i: int|
                    0 <= i < requested@.len() ==> (#[trigger] out.versions@[i])@.name
                        == requested@[i].name@ && out.versions@[i]@.version == versions[i]
                &&& out.ambiguous@.len() == ambiguous.len()
                &&& forall|i: int|
                    0 <= i < ambiguous.len() ==> (#[trigger] out.ambiguous@[i])@ == ambiguous[i]
            },
            Err(ResolveError::MissingPackage(n)) => resolve_all(
                lock_views(entries@),
                crate_names(requested@),
            ) == (ResolveSpec::MissingPkg { name: n@ }),
            Err(ResolveError::MissingVersion(n)) => resolve_all(
                lock_views(entries@),
                crate_names(requested@),
            ) == (ResolveSpec::MissingVer { name: n@ }),
        },
{
    let ghost lv = lock_views(entries@);
    let ghost names = crate_names(requested@);
    let mut versions: Vec<ResolvedVersion> = Vec::new();
    let mut ambiguous: Vec<Vec<u8>> = Vec::new();
    let ghost mut vs = Seq::<Seq<u8>>::empty();
    let ghost mut amb = Seq::<Seq<u8>>::empty();
    let mut i: usize = 0;
    proof {
        assert(names.skip(0) =~= names);
        match resolve_all(lv, names) {
            ResolveSpec::Done { versions: tvs, ambiguous: tamb } => {
                assert(vs + tvs =~= tvs);
                assert(amb + tamb =~= tamb);
            },
            _ => {},
        }
    }
    while i < requested.len()
        invariant
            0 <= i <= requested@.len(),
            lv == lock_views(entries@),
            names == crate_names(requested@),
            versions@.len() == i,
            vs.len() == i,
            forall|t: int|
                0 <= t < i ==> (#[trigger] versions@[t])@.name == requested@[t].name@
                    && versions@[t]@.version == vs[t],
            ambiguous@.len() == amb.len(),
            forall|t: int| 0 <= t < amb.len() ==> (#[trigger] ambiguous@[t])@ == amb[t],
            match resolve_all(lv, names.skip(i as int)) {
                ResolveSpec::Done { versions: tvs, ambiguous: tamb } => resolve_all(lv, names)
                    == (ResolveSpec::Done { versions: vs + tvs, ambiguous: amb + tamb }),
                failed => resolve_all(lv, names) == failed,
            },
        decreases requested@.len() - i,
    {
        proof {
            assert(names.skip(i as int)[0] == names[i as int]);
            assert(names.skip(i as int).skip(1) =~= names.skip(i + 1));
            assert(names[i as int] == requested@[i as int].name@);
        }
        let req = &requested[i];
        let (best, cnt) = find_last_match(entries, req.name.as_slice());
        match best {
            None => {
                return Err(ResolveError::MissingPackage(clone_bytes(&req.name)));
            },
            Some(j) => {
                let ent = &entries[j];
                assert(lv[j as int] == ent@);
                match &ent.version {
                    None => {
                        assert(lv[j as int].version is None);
                        return Err(ResolveError::MissingVersion(clone_bytes(&req.name)));
                    },
                    Some(v) => {
                        assert(lv[j as int].version == Some(v@));
                        let ghost vs_old = vs;
                        let ghost amb_old = amb;
                        let ghost ambi: Seq<Seq<u8>> = if cnt >= 2 {
                            seq![names[i as int]]
                        } else {
                            Seq::empty()
                        };
                        let rv = ResolvedVersion {
                            name: clone_bytes(&req.name),
                            version: clone_bytes(v),
                        };
                        versions.push(rv);
                        proof {
                            vs = vs.push(v@);
                        }
                        if cnt >= 2 {
                            ambiguous.push(clone_bytes(&req.name));
                            proof {
                                amb = amb.push(names[i as int]);
                                assert(amb =~= amb_old + ambi);
                            }
                        } else {
                            proof {
                                assert(amb =~= amb_old + ambi);
                            }
                        }
                        proof {
                            assert(resolve_all(lv, names.skip(i as int)) == (match resolve_all(
                                lv,
                                names.skip(i + 1),
                            ) {
                                ResolveSpec::Done { versions: t2, ambiguous: a2 } =>
                                    ResolveSpec::Done {
                                    versions: seq![v@] + t2,
                                    ambiguous: ambi + a2,
                                },
                                failed => failed,
                            }));
                            match resolve_all(lv, names.skip(i + 1)) {
                                ResolveSpec::Done { versions: t2, ambiguous: a2 } => {
                                    assert(vs_old + (seq![v@] + t2) =~= vs + t2);
                                    assert(amb_old + (ambi + a2) =~= amb + a2);
                                },
                                _ => {},
                            }
                        }
                    },
                }
            },
        }
        i = i + 1;
    }
    proof {
        assert(names.skip(i as int) =~= Seq::<Seq<u8>>::empty());
        match resolve_all(lv, names) {
            ResolveSpec::Done { versions: tvs, ambiguous: tamb } => {
                assert(vs + Seq::<Seq<u8>>::empty() =~= vs);
                assert(amb + Seq::<Seq<u8>>::empty() =~= amb);
            },
            _ => {},
        }
    }
    Ok(ResolveOutcome { versions, ambiguous })
}

/// The fixed head of the throwaway manifest: a synthetic package identity
/// followed by the opening of the dependency block.
pub open spec fn manifest_header() -> Seq<u8> {
    seq![
        91u8, 112, 97, 99, 107, 97, 103, 101, 93, 10, 110, 97, 109, 101, 32, 61, 32, 34, 117, 112,
        100, 97, 116, 101, 115, 34, 10, 118, 101, 114, 115, 105, 111, 110, 32, 61, 32, 34, 48, 46,
        48, 46, 48, 34, 10, 10, 91, 100, 101, 112, 101, 110, 100, 101, 110, 99, 105, 101, 115, 93,
        10,
    ]
}

/// One dependency line: the package's name with an unconstrained version
/// requirement.
pub open spec fn dep_line(name: Seq<u8>) -> Seq<u8> {
    name + seq![32u8, 61, 32, 34, 42, 34, 10]
}

/// The dependency lines of all requested names, in order.
pub open spec fn dep_lines(names: Seq<Seq<u8>>) -> Seq<u8>
    decreases names.len(),
{
    if names.len() == 0 {
        Seq::empty()
    } else {
        dep_line(names[0]) + dep_lines(names.skip(1))
    }
}

/// The whole throwaway manifest for the given names.
pub open spec fn manifest_bytes(names: Seq<Seq<u8>>) -> Seq<u8> {
    manifest_header() + dep_lines(names)
}

proof fn lemma_dep_lines_push(names: Seq<Seq<u8>>, x: Seq<u8>)
    ensures
        dep_lines(names.push(x)) == dep_lines(names) + dep_line(x),
    decreases names.len(),
{
    if names.len() == 0 {
        assert(names.push(x)[0] == x);
        assert(names.push(x).skip(1) =~= Seq::<Seq<u8>>::empty());
        assert(dep_line(x) + dep_lines(Seq::empty()) =~= dep_line(x));
        assert(dep_lines(names) + dep_line(x) =~= dep_line(x));
    } else {
        assert(names.push(x)[0] == names[0]);
        assert(names.push(x).skip(1) =~= names.skip(1).push(x));
        lemma_dep_lines_push(names.skip(1), x);
        assert(dep_line(names[0]) + (dep_lines(names.skip(1)) + dep_line(x)) =~= (dep_line(
            names[0],
        ) + dep_lines(names.skip(1))) + dep_line(x));
    }
}

/// Builds the throwaway manifest that declares every record of `crates` as
/// a dependency with an unconstrained version requirement, under a synthetic
/// package identity.
#[verifier::rlimit(60)]
fn make_header() -> (r: Vec<u8>)
    ensures
        r@ == manifest_header(),
{
    let mut out: Vec<u8> = Vec::new();
    out.push(91);
    out.push(112);
    out.push(97);
    out.push(99);
    out.push(107);
    out.push(97);
    out.push(103);
    out.push(101);
    out.push(93);
    out.push(10);
    out.push(110);
    out.push(97);
    out.push(109);
    out.push(101);
    out.push(32);
    out.push(61);
    out.push(32);
    out.push(34);
    out.push(117);
    out.push(112);
    out.push(100);
    out.push(97);
    out.push(116);
    out.push(101);
    out.push(115);
    out.push(34);
    out.push(10);
    out.push(118);
    out.push(101);
    out.push(114);
    out.push(115);
    out.push(105);
    out.push(111);
    out.push(110);
    out.push(32);
    out.push(61);
    out.push(32);
    out.push(34);
    out.push(48);
    out.push(46);
    out.push(48);
    out.push(46);
    out.push(48);
    out.push(34);
    out.push(10);
    out.push(10);
    out.push(91);
    out.push(100);
    out.push(101);
    out.push(112);
    out.push(101);
    out.push(110);
    out.push(100);
    out.push(101);
    out.push(110);
    out.push(99);
    out.push(105);
    out.push(101);
    out.push(115);
    out.push(93);
    out.push(10);
    assert(out@ =~= manifest_header());
    out
}

/// Builds the throwaway manifest that declares every record of `crates` as
/// a dependency with an unconstrained version requirement, under a synthetic
/// package identity.
pub fn manifest_text(crates: &Vec<Crate>) -> (r: Vec<u8>)
    ensures
        r@ == manifest_bytes(crate_names(crates@)),
{
    let mut out = make_header();
    let ghost names = crate_names(crates@);
    let mut i: usize = 0;
    proof {
        assert(names.take(0) =~= Seq::<Seq<u8>>::empty());
        assert(out@ + dep_lines(names.take(0)) =~= out@);
    }
    while i < crates.len()
        invariant
            0 <= i <= crates@.len(),
            names == crate_names(crates@),
            out@ == manifest_header() + dep_lines(names.take(i as int)),
        decreases crates@.len() - i,
    {
        let ghost before = out@;
        extend_bytes(&mut out, crates[i].name.as_slice());
        out.push(32);
        out.push(61);
        out.push(32);
        out.push(34);
        out.push(42);
        out.push(34);
        out.push(10);
        proof {
            assert(names[i as int] == crates@[i as int].name@);
            assert(out@ =~= before + dep_line(names[i as int]));
            lemma_dep_lines_push(names.take(i as int), names[i as int]);
            assert(names.take(i + 1) =~= names.take(i as int).push(names[i as int]));
            assert((manifest_header() + dep_lines(names.take(i as int))) + dep_line(
                names[i as int],
            ) =~= manifest_header() + (dep_lines(names.take(i as int)) + dep_line(
                names[i as int],
            )));
        }
        i = i + 1;
    }
    proof {
        assert(names.take(crates@.len() as int) =~= names);
    }
    out
}

} // verus!
