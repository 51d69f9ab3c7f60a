//! The listing parser and the installed-set collector.
//!
//! One line of the package manager's installed-package listing names a
//! package, its installed version behind a `v` marker, and, for packages that
//! did not come from the registry, a parenthesized origin descriptor. The
//! parser turns one such line into a registry record, a "no record" signal
//! (for continuation lines and for unsupported origins, the latter with a
//! warning), or a parse failure. The collector folds the parsed lines into a
//! set of records with unique names where, of two records with one name, the
//! one with the lexicographically greater version wins.

use vstd::prelude::*;

use crate::text::{
    chomp, copy_range, eq_bytes, find_byte, find_byte_from, lemma_find_byte,
    lemma_lex_transitive, lemma_lex_trichotomy, lex_lt, lex_lt_bytes, split_lines,
    split_lines_from, CR, NL, SPACE,
};

verus! {

/// Byte value of the version-prefix marker `v`.
pub const V_MARK: u8 = 118;

/// Byte value of the colon.
pub const COLON: u8 = 58;

/// Byte value of the opening parenthesis.
pub const LPAREN: u8 = 40;

/// Byte value of the closing parenthesis.
pub const RPAREN: u8 = 41;

/// An installed package: its name, its version string, and where it came
/// from. Name and version are kept as the listing's bytes.
#[derive(Debug, Clone, PartialEq, Eq)]
pub struct Crate {
    pub name: Vec<u8>,
    pub version: Vec<u8>,
    pub kind: CrateKind,
}

/// Origin of an installed package. Only registry-hosted packages are
/// supported; the other origins are recognized and skipped with a warning.
#[derive(Debug, Clone, PartialEq, Eq)]
pub enum CrateKind {
    CratesIo,
}

/// A structural deviation in the listing: missing name, malformed version
/// token, or malformed origin descriptor. Fatal for the whole listing.
#[derive(Debug)]
pub struct ParseListOutputError;

/// The unsupported origins a listing line can carry.
#[derive(Debug, Clone, Copy, PartialEq, Eq)]
pub enum UnsupportedOrigin {
    Git,
    Local,
}

/// A warning that a package was skipped because its origin is unsupported.
#[derive(Debug, Clone, PartialEq, Eq)]
pub struct Warning {
    pub name: Vec<u8>,
    pub origin: UnsupportedOrigin,
}

/// Mathematical form of a warning.
pub struct WarnView {
    pub name: Seq<u8>,
    pub origin: UnsupportedOrigin,
}

impl View for Warning {
    type V = WarnView;

    open spec fn view(&self) -> WarnView {
        WarnView { name: self.name@, origin: self.origin }
    }
}

/// What one listing line yields: nothing, a registry record, or a skipped
/// package with its warning.
#[derive(Debug)]
pub enum LineParse {
    NoRecord,
    Record(Crate),
    Unsupported(Warning),
}

/// Whether `s` begins with the four bytes of `http`.
pub open spec fn starts_with_http(s: Seq<u8>) -> bool {
    s.len() >= 4 && s[0] == 104 && s[1] == 116 && s[2] == 116 && s[3] == 112
}

/// The ASCII whitespace bytes: space, horizontal tab, line feed, form feed
/// and carriage return. A line opening with any of them is indentation, so a
/// continuation line.
pub open spec fn is_whitespace_byte(b: u8) -> bool {
    b == SPACE || b == 9 || b == NL || b == 12 || b == CR
}

/// Exec test matching `is_whitespace_byte`.
fn whitespace_byte(b: u8) -> (r: bool)
    ensures
        r == is_whitespace_byte(b),
{
    b == SPACE || b == 9 || b == NL || b == 12 || b == CR
}

/// Mathematical outcome of parsing one listing line.
pub enum ParsedLine {
    Skip,
    Registry { name: Seq<u8>, version: Seq<u8> },
    SkipGit { name: Seq<u8> },
    SkipLocal { name: Seq<u8> },
    Fail,
}

/// The listing line grammar. A line opening with whitespace is a
/// continuation line. Otherwise the line is split at single spaces: the
/// first token is the name; the second must carry the `v` marker and, with
/// the marker stripped, either ends in a colon (a registry record, the colon
/// stripped) or is followed by a parenthesized origin descriptor ending in
/// `):`, whose content decides between the version-control and local-path
/// origins.
pub open spec fn parse_line(s: Seq<u8>) -> ParsedLine {
    if s.len() > 0 && is_whitespace_byte(s[0]) {
        ParsedLine::Skip
    } else {
        let e1 = find_byte(s, 0, SPACE);
        if e1 >= s.len() {
            ParsedLine::Fail
        } else {
            let name = s.subrange(0, e1);
            let e2 = find_byte(s, e1 + 1, SPACE);
            let t2 = s.subrange(e1 + 1, e2);
            if t2.len() == 0 || t2[0] != V_MARK {
                ParsedLine::Fail
            } else {
                let ver = t2.skip(1);
                if ver.len() > 0 && ver[ver.len() - 1] == COLON {
                    ParsedLine::Registry { name, version: ver.take(ver.len() - 1) }
                } else if e2 >= s.len() {
                    ParsedLine::Fail
                } else {
                    let e3 = find_byte(s, e2 + 1, SPACE);
                    let t3 = s.subrange(e2 + 1, e3);
                    if t3.len() < 2 || t3[0] != LPAREN || t3[t3.len() - 2] != RPAREN
                        || t3[t3.len() - 1] != COLON {
                        ParsedLine::Fail
                    } else {
                        let path = t3.subrange(1, t3.len() - 2);
                        if starts_with_http(path) {
                            ParsedLine::SkipGit { name }
                        } else {
                            ParsedLine::SkipLocal { name }
                        }
                    }
                }
            }
        }
    }
}

/// How an executable parse result realizes a mathematical one.
pub open spec fn line_result_matches(
    r: Result<LineParse, ParseListOutputError>,
    p: ParsedLine,
) -> bool {
    match r {
        Ok(LineParse::NoRecord) => p == ParsedLine::Skip,
        Ok(LineParse::Record(c)) => p == (ParsedLine::Registry {
            name: c.name@,
            version: c.version@,
        }) && c.kind == CrateKind::CratesIo,
        Ok(LineParse::Unsupported(w)) => p == (match w.origin {
            UnsupportedOrigin::Git => ParsedLine::SkipGit { name: w.name@ },
            UnsupportedOrigin::Local => ParsedLine::SkipLocal { name: w.name@ },
        }),
        Err(_) => p == ParsedLine::Fail,
    }
}

/// A line that begins with any whitespace character is a continuation line
/// and never yields a record, whatever else it holds.
pub proof fn lemma_indented_line_is_skipped(line: Seq<u8>)
    requires
        line.len() > 0,
        is_whitespace_byte(line[0]),
    ensures
        parse_line(line) == ParsedLine::Skip,
{
}

impl Crate {
    /// Parses one line of the installed-package listing.
    pub fn parse_list_output(line: &[u8]) -> (r: Result<LineParse, ParseListOutputError>)
        ensures
            line_result_matches(r, parse_line(line@)),
    {
        if line.len() > 0 && whitespace_byte(line[0]) {
            return Ok(LineParse::NoRecord);
        }
        let e1 = find_byte_from(line, 0, SPACE);
        proof {
            lemma_find_byte(line@, 0, SPACE);
        }
        if e1 >= line.len() {
            return Err(ParseListOutputError);
        }
        let name = copy_range(line, 0, e1);
        let b2 = e1 + 1;
        let e2 = find_byte_from(line, b2, SPACE);
        proof {
            lemma_find_byte(line@, b2 as int, SPACE);
        }
        let ghost t2 = line@.subrange(b2 as int, e2 as int);
        if e2 == b2 || line[b2] != V_MARK {
            assert(t2.len() == 0 || t2[0] != V_MARK);
            return Err(ParseListOutputError);
        }
        // past the version-prefix marker
        let vs = b2 + 1;
        let ghost ver = t2.skip(1);
        proof {
            assert(ver =~= line@.subrange(vs as int, e2 as int));
        }
        if vs < e2 && line[e2 - 1] == COLON {
            // registry record: the version is what stands before the colon
            assert(ver.len() > 0 && ver[ver.len() - 1] == line@[e2 - 1]);
            let version = copy_range(line, vs, e2 - 1);
            proof {
                assert(version@ =~= ver.take(ver.len() - 1));
            }
            return Ok(LineParse::Record(Crate { name, version, kind: CrateKind::CratesIo }));
        }
        assert(!(ver.len() > 0 && ver[ver.len() - 1] == COLON));
        // an origin descriptor must follow
        if e2 >= line.len() {
            return Err(ParseListOutputError);
        }
        let b3 = e2 + 1;
        let e3 = find_byte_from(line, b3, SPACE);
        proof {
            lemma_find_byte(line@, b3 as int, SPACE);
        }
        let ghost t3 = line@.subrange(b3 as int, e3 as int);
        if e3 - b3 < 2 || line[b3] != LPAREN || line[e3 - 2] != RPAREN || line[e3 - 1] != COLON {
            assert(t3.len() < 2 || t3[0] != LPAREN || t3[t3.len() - 2] != RPAREN || t3[t3.len()
                - 1] != COLON);
            return Err(ParseListOutputError);
        }
        assert(t3.len() >= 2 && t3[0] == LPAREN && t3[t3.len() - 2] == RPAREN && t3[t3.len() - 1]
            == COLON);
        // the descriptor's content stands between `(` and `):`
        assert(e3 - b3 >= 3);
        let ps = b3 + 1;
        let pe = e3 - 2;
        let ghost path = t3.subrange(1, t3.len() - 2);
        proof {
            assert(path =~= line@.subrange(ps as int, pe as int));
        }
        let is_http = pe - ps >= 4 && line[ps] == 104 && line[ps + 1] == 116 && line[ps + 2] == 116
            && line[ps + 3] == 112;
        proof {
            assert(forall|k: int| 0 <= k < path.len() ==> path[k] == line@[ps + k]);
            assert(is_http == starts_with_http(path));
        }
        let origin = if is_http {
            UnsupportedOrigin::Git
        } else {
            UnsupportedOrigin::Local
        };
        Ok(LineParse::Unsupported(Warning { name, origin }))
    }
}

/// One fold step of the collector: a new version for a name replaces the one
/// on record unless the one on record is lexicographically greater.
pub open spec fn upsert(
    m: Map<Seq<u8>, Seq<u8>>,
    name: Seq<u8>,
    version: Seq<u8>,
) -> Map<Seq<u8>, Seq<u8>> {
    if m.contains_key(name) && lex_lt(version, m[name]) {
        m
    } else {
        m.insert(name, version)
    }
}

/// Outcome of folding a listing: a failure, or the deduplicated map from name
/// to the greatest installed version together with the warnings in line
/// order.
pub enum CollectSpec {
    Fail,
    Done { m: Map<Seq<u8>, Seq<u8>>, ws: Seq<WarnView> },
}

/// The collector's fold over the listing's lines, from line `i` on, starting
/// from the map `m` and the warnings `ws`.
pub open spec fn collect_from(
    lines: Seq<Seq<u8>>,
    i: int,
    m: Map<Seq<u8>, Seq<u8>>,
    ws: Seq<WarnView>,
) -> CollectSpec
    decreases lines.len() - i,
{
    if i < 0 || i >= lines.len() {
        CollectSpec::Done { m, ws }
    } else {
        match parse_line(lines[i]) {
            ParsedLine::Fail => CollectSpec::Fail,
            ParsedLine::Skip => collect_from(lines, i + 1, m, ws),
            ParsedLine::Registry { name, version } => collect_from(
                lines,
                i + 1,
                upsert(m, name, version),
                ws,
            ),
            ParsedLine::SkipGit { name } => collect_from(
                lines,
                i + 1,
                m,
                ws.push(WarnView { name, origin: UnsupportedOrigin::Git }),
            ),
            ParsedLine::SkipLocal { name } => collect_from(
                lines,
                i + 1,
                m,
                ws.push(WarnView { name, origin: UnsupportedOrigin::Local }),
            ),
        }
    }
}

/// What the whole listing collects to.
pub open spec fn collect_spec(listing: Seq<u8>) -> CollectSpec {
    collect_from(split_lines(listing), 0, Map::empty(), Seq::empty())
}

/// The records are strictly ordered by name, so each name occurs once.
pub open spec fn sorted_unique(s: Seq<Crate>) -> bool {
    forall|i: int, j: int|
        #![trigger s[i], s[j]]
        0 <= i < j < s.len() ==> lex_lt(s[i].name@, s[j].name@)
}

/// The records carry exactly the entries of the map `m`.
pub open spec fn covers(s: Seq<Crate>, m: Map<Seq<u8>, Seq<u8>>) -> bool {
    &&& forall|i: int|
        #![trigger s[i]]
        0 <= i < s.len() ==> m.contains_key(s[i].name@) && m[s[i].name@] == s[i].version@
    &&& forall|n: Seq<u8>|
        #[trigger] m.contains_key(n) ==> exists|i: int| 0 <= i < s.len() && s[i].name@ == n
}

/// Every record is registry-hosted.
pub open spec fn all_registry(s: Seq<Crate>) -> bool {
    forall|i: int| #![trigger s[i]] 0 <= i < s.len() ==> s[i].kind == CrateKind::CratesIo
}

/// In a strictly ordered sequence all names differ.
proof fn lemma_sorted_names_unique(s: Seq<Crate>)
    requires
        sorted_unique(s),
    ensures
        forall|i: int, j: int|
            #![trigger s[i], s[j]]
            0 <= i < s.len() && 0 <= j < s.len() && i != j ==> s[i].name@ != s[j].name@,
{
    assert forall|i: int, j: int|
        #![trigger s[i], s[j]]
        0 <= i < s.len() && 0 <= j < s.len() && i != j implies s[i].name@ != s[j].name@ by {
        if i < j {
            lemma_lex_trichotomy(s[i].name@, s[j].name@);
        } else {
            lemma_lex_trichotomy(s[j].name@, s[i].name@);
        }
    }
}

/// Applies one fold step to the ordered record set.
fn upsert_crate(crates: &mut Vec<Crate>, c: Crate, Ghost(m): Ghost<Map<Seq<u8>, Seq<u8>>>)
    requires
        sorted_unique(old(crates)@),
        covers(old(crates)@, m),
        all_registry(old(crates)@),
        c.kind == CrateKind::CratesIo,
    ensures
        sorted_unique(final(crates)@),
        covers(final(crates)@, upsert(m, c.name@, c.version@)),
        all_registry(final(crates)@),
{
    let ghost s0 = crates@;
    let mut lo: usize = 0;
    while lo < crates.len() && lex_lt_bytes(crates[lo].name.as_slice(), c.name.as_slice())
        invariant
            0 <= lo <= crates@.len(),
            crates@ == s0,
            forall|i: int| #![trigger s0[i]] 0 <= i < lo ==> lex_lt(s0[i].name@, c.name@),
        decreases crates@.len() - lo,
    {
        lo = lo + 1;
    }
    if lo < crates.len() && eq_bytes(crates[lo].name.as_slice(), c.name.as_slice()) {
        // the name is on record: the greater version wins
        if lex_lt_bytes(c.version.as_slice(), crates[lo].version.as_slice()) {
            // keep the record: the map is unchanged
            assert(m.contains_key(c.name@) && lex_lt(c.version@, m[c.name@]));
            assert(upsert(m, c.name@, c.version@) == m);
        } else {
            let ghost nm = c.name@;
            let ghost nv = c.version@;
            let ghost gc = c;
            crates.remove(lo);
            crates.insert(lo, c);
            proof {
                assert(crates@ =~= s0.update(lo as int, gc));
                let s1 = crates@;
                let m1 = upsert(m, nm, nv);
                assert(m1 == m.insert(nm, nv));
                lemma_sorted_names_unique(s0);
                assert(forall|i: int|
                    #![trigger s1[i]]
                    0 <= i < s1.len() && i != lo ==> s1[i] == s0[i]);
                assert(s1[lo as int].name@ == nm && s1[lo as int].version@ == nv);
                assert(forall|i: int|
                    #![trigger s1[i]]
                    0 <= i < s1.len() ==> s1[i].name@ == s0[i].name@);
                assert(sorted_unique(s1));
                assert forall|n: Seq<u8>| #[trigger] m1.contains_key(n) implies exists|i: int|
                    0 <= i < s1.len() && s1[i].name@ == n by {
                    if n == nm {
                        assert(s1[lo as int].name@ == n);
                    } else {
                        assert(m.contains_key(n));
                        let i = choose|i: int| 0 <= i < s0.len() && s0[i].name@ == n;
                        assert(s1[i].name@ == n);
                    }
                }
                assert(covers(s1, m1));
            }
        }
    } else {
        // the name is new: it goes in at its ordered place
        proof {
            if lo < s0.len() {
                lemma_lex_trichotomy(s0[lo as int].name@, c.name@);
            }
            assert(lo < s0.len() ==> lex_lt(c.name@, s0[lo as int].name@));
            assert forall|i: int|
                #![trigger s0[i]]
                0 <= i < s0.len() implies s0[i].name@ != c.name@ by {
                lemma_lex_trichotomy(s0[i].name@, c.name@);
                if i > lo {
                    lemma_lex_transitive(c.name@, s0[lo as int].name@, s0[i].name@);
                }
            }
            assert(!m.contains_key(c.name@)) by {
                if m.contains_key(c.name@) {
                    let i = choose|i: int| 0 <= i < s0.len() && s0[i].name@ == c.name@;
                }
            }
        }
        let ghost nm = c.name@;
        let ghost nv = c.version@;
        let ghost gc = c;
        crates.insert(lo, c);
        proof {
            let s1 = crates@;
            assert(s1 == s0.insert(lo as int, gc));
            let m1 = upsert(m, nm, nv);
            assert(m1 == m.insert(nm, nv));
            assert(forall|i: int| #![trigger s1[i]] 0 <= i < lo ==> s1[i] == s0[i]);
            assert(forall|i: int|
                #![trigger s1[i]]
                lo < i < s1.len() ==> s1[i] == s0[i - 1]);
            assert(s1[lo as int].name@ == nm && s1[lo as int].version@ == nv);
            assert forall|i: int, j: int|
                #![trigger s1[i], s1[j]]
                0 <= i < j < s1.len() implies lex_lt(s1[i].name@, s1[j].name@) by {
                if j > lo {
                    let t = s0[j - 1].name@;
                    assert(s1[j].name@ == t);
                    if j - 1 > lo {
                        assert(lex_lt(s0[lo as int].name@, t));
                        lemma_lex_transitive(nm, s0[lo as int].name@, t);
                    }
                    assert(lex_lt(nm, t));
                    if i < lo {
                        lemma_lex_transitive(s1[i].name@, nm, t);
                    }
                }
            }
            assert forall|n: Seq<u8>| #[trigger] m1.contains_key(n) implies exists|i: int|
                0 <= i < s1.len() && s1[i].name@ == n by {
                if n == nm {
                    assert(s1[lo as int].name@ == n);
                } else {
                    let i = choose|i: int| 0 <= i < s0.len() && s0[i].name@ == n;
                    if i < lo {
                        assert(s1[i].name@ == n);
                    } else {
                        assert(s1[i + 1].name@ == n);
                    }
                }
            }
            assert(covers(s1, m1));
        }
    }
}

/// The collector's result: the deduplicated records, ordered by name, and the
/// warnings in listing order.
pub struct CollectOutcome {
    pub crates: Vec<Crate>,
    pub warnings: Vec<Warning>,
}

/// Folds the whole installed-package listing into the set of installed
/// registry records, keeping for each name the lexicographically greatest
/// version, and gathering a warning for each package of unsupported origin.
/// Fails on the first malformed line.
pub fn installed_crates(listing: &[u8]) -> (r: Result<CollectOutcome, ParseListOutputError>)
    ensures
        match r {
            Ok(out) => {
                &&& collect_spec(listing@) matches CollectSpec::Done { m, ws }
                &&& sorted_unique(out.crates@)
                &&& covers(out.crates@, m)
                &&& all_registry(out.crates@)
                &&& out.warnings@.len() == ws.len()
                &&& forall|i: int| 0 <= i < ws.len() ==> #[trigger] out.warnings@[i]@ == ws[i]
            },
            Err(_) => collect_spec(listing@) == CollectSpec::Fail,
        },
{
    let ghost lines = split_lines(listing@);
    let mut crates: Vec<Crate> = Vec::new();
    let mut warnings: Vec<Warning> = Vec::new();
    let ghost mut m = Map::<Seq<u8>, Seq<u8>>::empty();
    let ghost mut ws = Seq::<WarnView>::empty();
    let ghost mut k: int = 0;
    let mut from: usize = 0;
    proof {
        assert(lines.skip(0) =~= lines);
    }
    while from < listing.len()
        invariant
            0 <= from <= listing@.len(),
            0 <= k <= lines.len(),
            split_lines_from(listing@, from as int) =~= lines.skip(k),
            collect_from(lines, k, m, ws) == collect_spec(listing@),
            sorted_unique(crates@),
            covers(crates@, m),
            all_registry(crates@),
            warnings@.len() == ws.len(),
            forall|i: int| 0 <= i < ws.len() ==> #[trigger] warnings@[i]@ == ws[i],
        decreases listing@.len() - from,
    {
        let e = find_byte_from(listing, from, NL);
        proof {
            lemma_find_byte(listing@, from as int, NL);
            assert(lines.skip(k).len() > 0);
            assert(k < lines.len());
        }
        let mut line = copy_range(listing, from, e);
        if line.len() > 0 && line[line.len() - 1] == CR {
            line.pop();
            proof {
                let raw = listing@.subrange(from as int, e as int);
                assert(line@ =~= raw.take(raw.len() - 1));
            }
        }
        proof {
            let raw = listing@.subrange(from as int, e as int);
            assert(line@ == chomp(raw));
            assert(lines.skip(k)[0] == chomp(raw));
            assert(lines[k] == chomp(raw));
        }
        match Crate::parse_list_output(line.as_slice()) {
            Err(err) => {
                proof {
                    assert(collect_from(lines, k, m, ws) == CollectSpec::Fail);
                }
                return Err(err);
            },
            Ok(LineParse::NoRecord) => {},
            Ok(LineParse::Record(c)) => {
                let ghost nm = c.name@;
                let ghost nv = c.version@;
                upsert_crate(&mut crates, c, Ghost(m));
                proof {
                    m = upsert(m, nm, nv);
                }
            },
            Ok(LineParse::Unsupported(w)) => {
                proof {
                    ws = ws.push(w@);
                }
                warnings.push(w);
            },
        }
        proof {
            assert(collect_from(lines, k + 1, m, ws) == collect_spec(listing@));
            k = k + 1;
            if e < listing@.len() {
                assert(lines.skip(k - 1).skip(1) =~= lines.skip(k));
                assert(split_lines_from(listing@, e + 1) =~= lines.skip(k));
            } else {
                assert(lines.skip(k - 1).len() == 1);
                assert(k == lines.len());
                assert(lines.skip(k) =~= Seq::<Seq<u8>>::empty());
                assert(split_lines_from(listing@, listing@.len() as int) =~= lines.skip(k));
            }
        }
        if e < listing.len() {
            from = e + 1;
        } else {
            from = listing.len();
        }
    }
    proof {
        assert(split_lines_from(listing@, from as int).len() == 0);
        assert(lines.skip(k).len() == 0);
        assert(k == lines.len());
        assert(collect_from(lines, k, m, ws) == (CollectSpec::Done { m, ws }));
    }
    Ok(CollectOutcome { crates, warnings })
}

/// Of two registry records with one name, the lexicographically greater
/// version is kept, in either listing order.
pub proof fn lemma_fold_keeps_greater_version(
    l1: Seq<u8>,
    l2: Seq<u8>,
    name: Seq<u8>,
    v1: Seq<u8>,
    v2: Seq<u8>,
)
    requires
        parse_line(l1) == (ParsedLine::Registry { name, version: v1 }),
        parse_line(l2) == (ParsedLine::Registry { name, version: v2 }),
        lex_lt(v1, v2),
    ensures
        collect_from(seq![l1, l2], 0, Map::empty(), Seq::empty()) matches CollectSpec::Done {
            m,
            ws,
        } && m.contains_key(name) && m[name] == v2 && ws.len() == 0,
        collect_from(seq![l2, l1], 0, Map::empty(), Seq::empty()) matches CollectSpec::Done {
            m,
            ws,
        } && m.contains_key(name) && m[name] == v2 && ws.len() == 0,
{
    lemma_lex_trichotomy(v1, v2);
    let e = Map::<Seq<u8>, Seq<u8>>::empty();
    let w = Seq::<WarnView>::empty();
    let a = seq![l1, l2];
    assert(a[0] == l1 && a[1] == l2);
    let ma1 = upsert(e, name, v1);
    assert(ma1 == e.insert(name, v1));
    assert(collect_from(a, 0, e, w) == collect_from(a, 1, ma1, w));
    let ma2 = upsert(ma1, name, v2);
    assert(ma2 == ma1.insert(name, v2));
    assert(collect_from(a, 1, ma1, w) == collect_from(a, 2, ma2, w));
    assert(collect_from(a, 2, ma2, w) == (CollectSpec::Done { m: ma2, ws: w }));
    let b = seq![l2, l1];
    assert(b[0] == l2 && b[1] == l1);
    let mb1 = upsert(e, name, v2);
    assert(mb1 == e.insert(name, v2));
    assert(collect_from(b, 0, e, w) == collect_from(b, 1, mb1, w));
    let mb2 = upsert(mb1, name, v1);
    assert(mb2 == mb1);
    assert(collect_from(b, 1, mb1, w) == collect_from(b, 2, mb2, w));
    assert(collect_from(b, 2, mb2, w) == (CollectSpec::Done { m: mb2, ws: w }));
}

} // verus!
