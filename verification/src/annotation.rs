//! The accumulated annotation: the format version, the declared sequence
//! regions and the matched gene feature lines, together with the line
//! classifier that grows it and the parsers of the three line shapes.

use vstd::prelude::*;

use crate::attrs::Attrs;
use crate::numbers::{parse_i32, parse_u16, parse_u64, spec_parse_i32, spec_parse_u16,
    spec_parse_u64};
use crate::text::{spec_contains, spec_starts_with, split_char, split_on, split_whitespace_vec,
    split_ws, str_contains, str_starts_with};

verus! {

/// Why a run over a file was aborted.
#[derive(Clone, Copy, Debug, PartialEq, Eq, Structural)]
pub enum GffError {
    /// The input was not gzip data, or did not decompress to text.
    Decode,
    /// A `##gff-version` line without a version number as its second
    /// space-separated token.
    VersionParse,
    /// A `##sequence-region` line without a `u64` as its fourth whitespace
    /// token.
    RegionLengthParse,
    /// A matched gene feature line with fewer than nine tab-separated
    /// columns.
    GeneColumns,
    /// A matched gene feature line whose start or end column is not an
    /// `i32`.
    GeneCoordinateParse,
    /// A gene attribute token without a `=` separator.
    AttributeSplit,
}

/// A declared sequence region.
#[derive(Debug)]
pub struct Region {
    pub name: String,
    pub length: u64,
}

#[verifier::ext_equal]
pub ghost struct RegionView {
    pub name: Seq<char>,
    pub length: u64,
}

impl View for Region {
    type V = RegionView;

    open spec fn view(&self) -> RegionView {
        RegionView { name: self.name@, length: self.length }
    }
}

/// A gene feature record, the fields copied from columns 0, 3, 4, 6 and 8
/// of its line.
#[derive(Debug)]
pub struct Gene {
    pub chromosome: String,
    pub start: i32,
    pub end: i32,
    pub strand: String,
    pub attrs: Attrs,
}

#[verifier::ext_equal]
pub ghost struct GeneView {
    pub chromosome: Seq<char>,
    pub start: i32,
    pub end: i32,
    pub strand: Seq<char>,
    pub attrs: Map<Seq<char>, Seq<char>>,
}

impl View for Gene {
    type V = GeneView;

    open spec fn view(&self) -> GeneView {
        GeneView {
            chromosome: self.chromosome@,
            start: self.start,
            end: self.end,
            strand: self.strand@,
            attrs: self.attrs@,
        }
    }
}

impl Gene {
    pub open spec fn wf(&self) -> bool {
        self.attrs.wf()
    }
}

/// The aggregate result of a run: regions and genes in file order.
#[derive(Debug)]
pub struct Annotation {
    pub gff_version: u16,
    pub regions: Vec<Region>,
    pub genes: Vec<Gene>,
}

#[verifier::ext_equal]
pub ghost struct AnnotationView {
    pub gff_version: u16,
    pub regions: Seq<RegionView>,
    pub genes: Seq<GeneView>,
}

impl View for Annotation {
    type V = AnnotationView;

    open spec fn view(&self) -> AnnotationView {
        AnnotationView {
            gff_version: self.gff_version,
            regions: self.regions@.map_values(|r: Region| r@),
            genes: self.genes@.map_values(|g: Gene| g@),
        }
    }
}

/// The empty annotation, version 0 meaning "unset".
pub open spec fn initial_annotation() -> AnnotationView {
    AnnotationView { gff_version: 0, regions: Seq::empty(), genes: Seq::empty() }
}

/// The version number declared by a `##gff-version` line: the second token
/// of a split on single spaces, read as a `u16`.
pub open spec fn spec_version_of(line: Seq<char>) -> Option<u16> {
    let toks = split_on(line, ' ');
    if toks.len() < 2 {
        None
    } else {
        spec_parse_u16(toks[1])
    }
}

/// The region declared by a `##sequence-region` line: of the split on runs
/// of whitespace, the second token names the region and the fourth, read as
/// a `u64`, is kept as its length.
pub open spec fn spec_region_of(line: Seq<char>) -> Option<RegionView> {
    let toks = split_ws(line);
    if toks.len() < 4 {
        None
    } else {
        match spec_parse_u64(toks[3]) {
            Some(l) => Some(RegionView { name: toks[1], length: l }),
            None => None,
        }
    }
}

/// The mapping denoted by a `;`-separated list of `key=value` tokens, the
/// value cut at the next `=` if one follows, `None` when a token has no `=`
/// at all.
pub open spec fn attrs_from_tokens(toks: Seq<Seq<char>>) -> Option<Map<Seq<char>, Seq<char>>>
    decreases toks.len(),
{
    if toks.len() == 0 {
        Some(Map::empty())
    } else {
        match attrs_from_tokens(toks.drop_last()) {
            None => None,
            Some(m) => {
                let ps = split_on(toks.last(), '=');
                if ps.len() < 2 {
                    None
                } else {
                    Some(m.insert(ps[0], ps[1]))
                }
            },
        }
    }
}

pub open spec fn spec_parse_attrs(s: Seq<char>) -> Option<Map<Seq<char>, Seq<char>>> {
    attrs_from_tokens(split_on(s, ';'))
}

/// The gene record denoted by a matched feature line, or the error that
/// aborts the run on it.
pub open spec fn spec_gene_of(line: Seq<char>) -> Result<GeneView, GffError> {
    let cols = split_on(line, '\t');
    if cols.len() < 9 {
        Err(GffError::GeneColumns)
    } else if spec_parse_i32(cols[3]) is None || spec_parse_i32(cols[4]) is None {
        Err(GffError::GeneCoordinateParse)
    } else {
        match spec_parse_attrs(cols[8]) {
            None => Err(GffError::AttributeSplit),
            Some(m) => Ok(
                GeneView {
                    chromosome: cols[0],
                    start: spec_parse_i32(cols[3])->0,
                    end: spec_parse_i32(cols[4])->0,
                    strand: cols[6],
                    attrs: m,
                },
            ),
        }
    }
}

/// If a prefix of the attribute tokens is already malformed, the whole list
/// is.
proof fn lemma_attrs_prefix_none(toks: Seq<Seq<char>>, i: int)
    requires
        0 <= i <= toks.len(),
        attrs_from_tokens(toks.take(i)) is None,
    ensures
        attrs_from_tokens(toks) is None,
    decreases toks.len() - i,
{
    if i == toks.len() {
        assert(toks.take(i) =~= toks);
    } else {
        assert(toks.take(i + 1).drop_last() =~= toks.take(i));
        lemma_attrs_prefix_none(toks, i + 1);
    }
}

/// Splits a `;`-separated attribute list into its key/value mapping, each
/// token cut at its first `=`; a token with no `=` aborts with
/// `AttributeSplit`.
pub fn parse_attrs(attrs_line: &str) -> (r: Result<Attrs, GffError>)
    ensures
        match r {
            Ok(a) => a.wf() && spec_parse_attrs(attrs_line@) == Some(a@),
            Err(e) => e == GffError::AttributeSplit && spec_parse_attrs(attrs_line@) is None,
        },
{
    let toks = split_char(attrs_line, ';');
    let ghost tv = toks.deep_view();
    let mut a = Attrs::new();
    proof {
        assert(tv.take(0) =~= Seq::<Seq<char>>::empty());
        assert(attrs_from_tokens(tv.take(0)) == Some(a@));
    }
    let n = toks.len();
    let mut i: usize = 0;
    while i < n
        invariant
            i <= n,
            n == toks.len(),
            tv == toks.deep_view(),
            tv == split_on(attrs_line@, ';'),
            a.wf(),
            attrs_from_tokens(tv.take(i as int)) == Some(a@),
        decreases n - i,
    {
        let parts = split_char(toks[i].as_str(), '=');
        proof {
            assert(tv[i as int] == toks@[i as int]@);
            assert(tv.take(i + 1).drop_last() =~= tv.take(i as int));
            assert(tv.take(i + 1).last() == tv[i as int]);
            assert(parts.deep_view() == split_on(tv[i as int], '='));
        }
        if parts.len() < 2 {
            proof {
                assert(attrs_from_tokens(tv.take(i + 1)) is None);
                lemma_attrs_prefix_none(tv, i + 1);
            }
            return Err(GffError::AttributeSplit);
        }
        let key = parts[0].clone();
        let value = parts[1].clone();
        proof {
            assert(key@ == parts.deep_view()[0]);
            assert(value@ == parts.deep_view()[1]);
        }
        a.insert(key, value);
        i += 1;
    }
    proof {
        assert(tv.take(n as int) =~= tv);
    }
    Ok(a)
}

impl Gene {
    /// Reads a matched feature line: chromosome, start, end, strand and the
    /// attribute list from its tab-separated columns.
    pub fn new(gff_line: &str) -> (r: Result<Gene, GffError>)
        ensures
            match r {
                Ok(g) => g.wf() && spec_gene_of(gff_line@) == Ok::<GeneView, GffError>(g@),
                Err(e) => spec_gene_of(gff_line@) == Err::<GeneView, GffError>(e),
            },
    {
        let parts = split_char(gff_line, '\t');
        let ghost pv = parts.deep_view();
        if parts.len() < 9 {
            return Err(GffError::GeneColumns);
        }
        proof {
            assert(pv[0] == parts@[0]@);
            assert(pv[3] == parts@[3]@);
            assert(pv[4] == parts@[4]@);
            assert(pv[6] == parts@[6]@);
            assert(pv[8] == parts@[8]@);
        }
        let start = match parse_i32(parts[3].as_str()) {
            Some(v) => v,
            None => {
                return Err(GffError::GeneCoordinateParse);
            },
        };
        let end = match parse_i32(parts[4].as_str()) {
            Some(v) => v,
            None => {
                return Err(GffError::GeneCoordinateParse);
            },
        };
        let attrs = match parse_attrs(parts[8].as_str()) {
            Ok(a) => a,
            Err(e) => {
                return Err(e);
            },
        };
        let chromosome = parts[0].clone();
        let strand = parts[6].clone();
        Ok(Gene { chromosome, start, end, strand, attrs })
    }
}

/// What one line does to the accumulated annotation: the first matching
/// rule of the classifier applies, and a line matching none leaves the
/// annotation as it is.
pub open spec fn spec_step(a: AnnotationView, line: Seq<char>) -> Result<
    AnnotationView,
    GffError,
> {
    if spec_starts_with(line, "##gff-version"@) {
        match spec_version_of(line) {
            Some(v) => Ok(AnnotationView { gff_version: v, regions: a.regions, genes: a.genes }),
            None => Err(GffError::VersionParse),
        }
    } else if spec_starts_with(line, "##sequence-region"@) {
        match spec_region_of(line) {
            Some(rv) => Ok(
                AnnotationView {
                    gff_version: a.gff_version,
                    regions: a.regions.push(rv),
                    genes: a.genes,
                },
            ),
            None => Err(GffError::RegionLengthParse),
        }
    } else if spec_contains(line, "\tensembl_havana\tgene\t"@) {
        match spec_gene_of(line) {
            Ok(g) => Ok(
                AnnotationView {
                    gff_version: a.gff_version,
                    regions: a.regions,
                    genes: a.genes.push(g),
                },
            ),
            Err(e) => Err(e),
        }
    } else {
        Ok(a)
    }
}

/// The annotation accumulated over a sequence of lines from the state `a`,
/// or the error that aborted the run at the first failing line.
pub open spec fn spec_run_from(a: AnnotationView, lines: Seq<Seq<char>>) -> Result<
    AnnotationView,
    GffError,
> decreases lines.len(),
{
    if lines.len() == 0 {
        Ok(a)
    } else {
        match spec_step(a, lines[0]) {
            Ok(m) => spec_run_from(m, lines.skip(1)),
            Err(e) => Err(e),
        }
    }
}

/// A whole run: every line processed in order, starting from the empty
/// annotation.
pub open spec fn spec_run(lines: Seq<Seq<char>>) -> Result<AnnotationView, GffError> {
    spec_run_from(initial_annotation(), lines)
}

/// A line matching none of the three rules never changes the annotation:
/// not the version, not the regions, not the genes.
pub proof fn lemma_step_ignores(a: AnnotationView, line: Seq<char>)
    requires
        !spec_starts_with(line, "##gff-version"@),
        !spec_starts_with(line, "##sequence-region"@),
        !spec_contains(line, "\tensembl_havana\tgene\t"@),
    ensures
        spec_step(a, line) == Ok::<AnnotationView, GffError>(a),
{
}

/// A processed line only grows the accumulated regions and genes: what was
/// there stays, in its order, and at most one record is appended.
pub proof fn lemma_step_grows(a: AnnotationView, line: Seq<char>)
    ensures
        spec_step(a, line) matches Ok(m) ==> a.regions.is_prefix_of(m.regions)
            && a.genes.is_prefix_of(m.genes),
{
    if spec_step(a, line) is Ok {
        let m = spec_step(a, line)->Ok_0;
        assert(a.regions =~= m.regions.take(a.regions.len() as int));
        assert(a.genes =~= m.genes.take(a.genes.len() as int));
    }
}

/// Over a whole run the regions and genes only grow: the records
/// accumulated at any point stay, in their order, in the final annotation.
pub proof fn lemma_run_grows(a: AnnotationView, lines: Seq<Seq<char>>)
    ensures
        spec_run_from(a, lines) matches Ok(m) ==> a.regions.is_prefix_of(m.regions)
            && a.genes.is_prefix_of(m.genes),
    decreases lines.len(),
{
    if lines.len() == 0 {
        if spec_run_from(a, lines) is Ok {
            let m = spec_run_from(a, lines)->Ok_0;
            assert(a.regions =~= m.regions.take(a.regions.len() as int));
            assert(a.genes =~= m.genes.take(a.genes.len() as int));
        }
    } else if spec_step(a, lines[0]) is Ok {
        let m1 = spec_step(a, lines[0])->Ok_0;
        lemma_step_grows(a, lines[0]);
        lemma_run_grows(m1, lines.skip(1));
        if spec_run_from(a, lines) is Ok {
            let m = spec_run_from(a, lines)->Ok_0;
            assert(a.regions =~= m.regions.take(a.regions.len() as int));
            assert(a.genes =~= m.genes.take(a.genes.len() as int));
        }
    }
}

/// Of two valid `##gff-version` lines processed in order, the later one's
/// number is the version that stays.
pub proof fn lemma_version_last_wins(a: AnnotationView, l1: Seq<char>, l2: Seq<char>)
    requires
        spec_starts_with(l1, "##gff-version"@),
        spec_starts_with(l2, "##gff-version"@),
        spec_version_of(l1) is Some,
        spec_version_of(l2) is Some,
    ensures
        spec_step(a, l1) matches Ok(m1) && spec_step(m1, l2) matches Ok(m2) && m2.gff_version
            == spec_version_of(l2)->0,
{
}

impl Annotation {
    pub open spec fn wf(&self) -> bool {
        forall|i: int| 0 <= i < self.genes@.len() ==> (#[trigger] self.genes@[i]).wf()
    }

    pub fn new() -> (r: Annotation)
        ensures
            r.wf(),
            r@ == initial_annotation(),
    {
        let r = Annotation { gff_version: 0, regions: Vec::new(), genes: Vec::new() };
        proof {
            assert(r@ =~= initial_annotation());
        }
        r
    }

    /// Reads a `##gff-version` line and overwrites the version, so that the
    /// last such line wins.
    pub fn set_version(&mut self, gff_line: &str) -> (r: Result<(), GffError>)
        requires
            old(self).wf(),
        ensures
            final(self).wf(),
            match spec_version_of(gff_line@) {
                Some(v) => r is Ok && final(self)@ == (AnnotationView {
                    gff_version: v,
                    regions: old(self)@.regions,
                    genes: old(self)@.genes,
                }),
                None => r == Err::<(), GffError>(GffError::VersionParse) && final(self)@ == old(
                    self,
                )@,
            },
    {
        let toks = split_char(gff_line, ' ');
        if toks.len() < 2 {
            return Err(GffError::VersionParse);
        }
        proof {
            assert(toks.deep_view()[1] == toks@[1]@);
        }
        match parse_u16(toks[1].as_str()) {
            Some(v) => {
                self.gff_version = v;
                proof {
                    assert(final(self)@ =~= (AnnotationView {
                        gff_version: v,
                        regions: old(self)@.regions,
                        genes: old(self)@.genes,
                    }));
                }
                Ok(())
            },
            None => Err(GffError::VersionParse),
        }
    }

    /// Reads a `##sequence-region` line and appends the declared region.
    pub fn add_region(&mut self, gff_line: &str) -> (r: Result<(), GffError>)
        requires
            old(self).wf(),
        ensures
            final(self).wf(),
            match spec_region_of(gff_line@) {
                Some(rv) => r is Ok && final(self)@ == (AnnotationView {
                    gff_version: old(self)@.gff_version,
                    regions: old(self)@.regions.push(rv),
                    genes: old(self)@.genes,
                }),
                None => r == Err::<(), GffError>(GffError::RegionLengthParse) && final(self)@
                    == old(self)@,
            },
    {
        let toks = split_whitespace_vec(gff_line);
        if toks.len() < 4 {
            return Err(GffError::RegionLengthParse);
        }
        proof {
            assert(toks.deep_view()[1] == toks@[1]@);
            assert(toks.deep_view()[3] == toks@[3]@);
        }
        match parse_u64(toks[3].as_str()) {
            Some(length) => {
                let name = toks[1].clone();
                self.regions.push(Region { name, length });
                proof {
                    assert(final(self)@ =~= (AnnotationView {
                        gff_version: old(self)@.gff_version,
                        regions: old(self)@.regions.push(
                            spec_region_of(gff_line@)->0,
                        ),
                        genes: old(self)@.genes,
                    }));
                }
                Ok(())
            },
            None => Err(GffError::RegionLengthParse),
        }
    }

    /// Reads a matched gene feature line and appends the gene.
    pub fn add_gene(&mut self, gff_line: &str) -> (r: Result<(), GffError>)
        requires
            old(self).wf(),
        ensures
            final(self).wf(),
            match spec_gene_of(gff_line@) {
                Ok(gv) => r is Ok && final(self)@ == (AnnotationView {
                    gff_version: old(self)@.gff_version,
                    regions: old(self)@.regions,
                    genes: old(self)@.genes.push(gv),
                }),
                Err(e) => r == Err::<(), GffError>(e) && final(self)@ == old(self)@,
            },
    {
        match Gene::new(gff_line) {
            Ok(g) => {
                self.genes.push(g);
                proof {
                    assert(final(self)@ =~= (AnnotationView {
                        gff_version: old(self)@.gff_version,
                        regions: old(self)@.regions,
                        genes: old(self)@.genes.push(spec_gene_of(gff_line@)->Ok_0),
                    }));
                }
                Ok(())
            },
            Err(e) => Err(e),
        }
    }

    /// Classifies one line by the first matching rule and applies it; a
    /// line matching no rule changes nothing.
    pub fn process_line(&mut self, line: &str) -> (r: Result<(), GffError>)
        requires
            old(self).wf(),
        ensures
            final(self).wf(),
            match spec_step(old(self)@, line@) {
                Ok(m) => r is Ok && final(self)@ == m,
                Err(e) => r == Err::<(), GffError>(e) && final(self)@ == old(self)@,
            },
    {
        if str_starts_with(line, "##gff-version") {
            self.set_version(line)
        } else if str_starts_with(line, "##sequence-region") {
            self.add_region(line)
        } else if str_contains(line, "\tensembl_havana\tgene\t") {
            self.add_gene(line)
        } else {
            Ok(())
        }
    }
}

/// Processes every line in order, starting from the empty annotation, and
/// aborts at the first failing line with nothing returned.
pub fn parse_annotation(lines: &Vec<String>) -> (r: Result<Annotation, GffError>)
    ensures
        match spec_run(lines.deep_view()) {
            Ok(m) => r matches Ok(a) && a.wf() && a@ == m,
            Err(e) => r matches Err(e2) && e == e2,
        },
{
    let ghost lv = lines.deep_view();
    let mut a = Annotation::new();
    let n = lines.len();
    let mut i: usize = 0;
    proof {
        assert(lv.skip(0) =~= lv);
    }
    while i < n
        invariant
            i <= n,
            n == lines.len(),
            lv == lines.deep_view(),
            a.wf(),
            spec_run(lv) == spec_run_from(a@, lv.skip(i as int)),
        decreases n - i,
    {
        let ghost rest = lv.skip(i as int);
        proof {
            assert(rest[0] == lines@[i as int]@);
            assert(rest.skip(1) =~= lv.skip(i + 1));
        }
        match a.process_line(lines[i].as_str()) {
            Ok(_) => {},
            Err(e) => {
                return Err(e);
            },
        }
        i += 1;
    }
    proof {
        assert(lv.skip(n as int) =~= Seq::<Seq<char>>::empty());
    }
    Ok(a)
}

} // verus!
