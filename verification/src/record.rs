//! The parsed bibliographic record and the field extractor.
//!
//! A record holds its control fields (tag and raw value) and its data
//! fields (tag and an ordered list of subfields).  Duplicate tags are kept:
//! the structures are multi-valued, not keyed.  The extractor scans one
//! record for a tag and subfield-code combination, optionally requiring the
//! value to contain a pattern case-insensitively, and returns the last
//! qualifying value in document order, or the empty string.

use vstd::prelude::*;
use vstd::string::StrSliceExecFns;
use crate::text::{chars_of, contains_ci, contains_ci_exec};

verus! {

broadcast use vstd::seq_lib::group_seq_properties;

// ---------------------------------------------------------------------------
// Data model
// ---------------------------------------------------------------------------

/// Mathematical image of a subfield.
pub struct SubFieldModel {
    pub code: Seq<char>,
    pub value: Option<Seq<char>>,
}

/// Mathematical image of a data field.
pub struct DataFieldModel {
    pub tag: Seq<char>,
    pub subfields: Seq<SubFieldModel>,
}

/// Mathematical image of a control field.
pub struct ControlFieldModel {
    pub tag: Seq<char>,
    pub value: Option<Seq<char>>,
}

/// Mathematical image of a record.
pub struct RecordModel {
    pub controlfields: Seq<ControlFieldModel>,
    pub datafields: Seq<DataFieldModel>,
}

/// A subfield of a data field: a one-character code and an optional value.
pub struct SubField {
    pub code: String,
    pub value: Option<String>,
}

/// A data field: a three-character tag and its subfields, in order.
pub struct DataField {
    pub tag: String,
    pub subfields: Vec<SubField>,
}

/// A control field: a three-character tag and an optional raw value.
pub struct ControlField {
    pub tag: String,
    pub value: Option<String>,
}

/// One parsed bibliographic record.
pub struct RecordXml {
    pub controlfields: Vec<ControlField>,
    pub datafields: Vec<DataField>,
}

/// A batch of records, in stream order.
pub struct Collection {
    pub records: Vec<RecordXml>,
}

impl View for SubField {
    type V = SubFieldModel;

    open spec fn view(&self) -> SubFieldModel {
        SubFieldModel {
            code: self.code@,
            value: match self.value {
                Option::Some(s) => Option::Some(s@),
                Option::None => Option::None,
            },
        }
    }
}

impl DeepView for SubField {
    type V = SubFieldModel;

    open spec fn deep_view(&self) -> SubFieldModel {
        self.view()
    }
}

impl View for DataField {
    type V = DataFieldModel;

    open spec fn view(&self) -> DataFieldModel {
        DataFieldModel { tag: self.tag@, subfields: self.subfields.deep_view() }
    }
}

impl DeepView for DataField {
    type V = DataFieldModel;

    open spec fn deep_view(&self) -> DataFieldModel {
        self.view()
    }
}

impl View for ControlField {
    type V = ControlFieldModel;

    open spec fn view(&self) -> ControlFieldModel {
        ControlFieldModel {
            tag: self.tag@,
            value: match self.value {
                Option::Some(s) => Option::Some(s@),
                Option::None => Option::None,
            },
        }
    }
}

impl DeepView for ControlField {
    type V = ControlFieldModel;

    open spec fn deep_view(&self) -> ControlFieldModel {
        self.view()
    }
}

impl View for RecordXml {
    type V = RecordModel;

    open spec fn view(&self) -> RecordModel {
        RecordModel {
            controlfields: self.controlfields.deep_view(),
            datafields: self.datafields.deep_view(),
        }
    }
}

impl DeepView for RecordXml {
    type V = RecordModel;

    open spec fn deep_view(&self) -> RecordModel {
        self.view()
    }
}

impl View for Collection {
    type V = Seq<RecordModel>;

    open spec fn view(&self) -> Seq<RecordModel> {
        self.records.deep_view()
    }
}

impl DeepView for Collection {
    type V = Seq<RecordModel>;

    open spec fn deep_view(&self) -> Seq<RecordModel> {
        self.view()
    }
}

// ---------------------------------------------------------------------------
// Field extraction
// ---------------------------------------------------------------------------

/// The text of a subfield: its value, or empty when it has none.
pub open spec fn subfield_text(sf: SubFieldModel) -> Seq<char> {
    match sf.value {
        Option::Some(v) => v,
        Option::None => Seq::empty(),
    }
}

/// Whether a subfield qualifies: its code matches, and its text contains
/// the pattern case-insensitively when one is given.
pub open spec fn subfield_matches(
    sf: SubFieldModel,
    code: Seq<char>,
    pattern: Option<Seq<char>>,
) -> bool {
    sf.code == code && match pattern {
        Option::Some(p) => contains_ci(subfield_text(sf), p),
        Option::None => true,
    }
}

/// Scans the subfields in order; each qualifying subfield replaces the
/// result gathered so far, so the last one wins.
pub open spec fn scan_subfields(
    sfs: Seq<SubFieldModel>,
    code: Seq<char>,
    pattern: Option<Seq<char>>,
    acc: Seq<char>,
) -> Seq<char>
    decreases sfs.len(),
{
    if sfs.len() == 0 {
        acc
    } else {
        let acc2 = if subfield_matches(sfs[0], code, pattern) {
            subfield_text(sfs[0])
        } else {
            acc
        };
        scan_subfields(sfs.drop_first(), code, pattern, acc2)
    }
}

/// Scans the data fields in order, descending into each field whose tag
/// matches.
pub open spec fn scan_datafields(
    dfs: Seq<DataFieldModel>,
    tag: Seq<char>,
    code: Seq<char>,
    pattern: Option<Seq<char>>,
    acc: Seq<char>,
) -> Seq<char>
    decreases dfs.len(),
{
    if dfs.len() == 0 {
        acc
    } else {
        let acc2 = if dfs[0].tag == tag {
            scan_subfields(dfs[0].subfields, code, pattern, acc)
        } else {
            acc
        };
        scan_datafields(dfs.drop_first(), tag, code, pattern, acc2)
    }
}

/// The value the extractor returns for a record: the text of the last
/// qualifying subfield in document order, or empty when none qualifies.
pub open spec fn extracted_field(
    r: RecordModel,
    tag: Seq<char>,
    code: Seq<char>,
    pattern: Option<Seq<char>>,
) -> Seq<char> {
    scan_datafields(r.datafields, tag, code, pattern, Seq::empty())
}

/// The title of a record: data field "245", subfield "a", no pattern.
pub open spec fn title_of(r: RecordModel) -> Seq<char> {
    extracted_field(r, "245"@, "a"@, Option::None)
}

pub open spec fn pattern_view(pattern: Option<&str>) -> Option<Seq<char>> {
    match pattern {
        Option::Some(p) => Option::Some(p@),
        Option::None => Option::None,
    }
}

/// Character-for-character string equality.
pub fn str_eq(a: &str, b: &str) -> (r: bool)
    ensures
        r == (a@ == b@),
{
    let na = a.unicode_len();
    let nb = b.unicode_len();
    if na != nb {
        return false;
    }
    let mut i: usize = 0;
    loop
        invariant
            i <= na,
            na == a@.len(),
            na == b@.len(),
            forall|t: int| 0 <= t < i ==> a@[t] == b@[t],
        decreases na - i,
    {
        if i == na {
            proof {
                assert(a@ =~= b@);
            }
            return true;
        }
        if a.get_char(i) != b.get_char(i) {
            return false;
        }
        i += 1;
    }
}

/// The text of one subfield as a fresh string.
fn subfield_text_exec(sf: &SubField) -> (r: String)
    ensures
        r@ == subfield_text(sf@),
{
    match &sf.value {
        Option::Some(v) => v.clone(),
        Option::None => String::new(),
    }
}

fn subfield_matches_exec(sf: &SubField, code: &str, pattern: Option<&str>) -> (r: bool)
    ensures
        r == subfield_matches(sf@, code@, pattern_view(pattern)),
{
    if !str_eq(sf.code.as_str(), code) {
        return false;
    }
    match pattern {
        Option::Some(p) => {
            let text = subfield_text_exec(sf);
            let hay = chars_of(text.as_str());
            let needle = chars_of(p);
            contains_ci_exec(&hay, &needle)
        },
        Option::None => true,
    }
}

/// Searches `record` for data fields with the given tag and subfields with
/// the given code whose value contains `pattern` case-insensitively (every
/// code match qualifies when no pattern is given), and returns the last
/// qualifying value in document order.  A record without a qualifying
/// subfield gives the empty string; the extractor never fails.
pub fn extract_field(record: &RecordXml, tag: &str, code: &str, pattern: Option<&str>) -> (r:
    String)
    ensures
        r@ == extracted_field(record.deep_view(), tag@, code@, pattern_view(pattern)),
{
    let ghost dfs = record.deep_view().datafields;
    let ghost pat = pattern_view(pattern);
    let mut acc = String::new();
    let mut i: usize = 0;
    while i < record.datafields.len()
        invariant
            i <= record.datafields.len(),
            dfs == record.deep_view().datafields,
            pat == pattern_view(pattern),
            dfs.len() == record.datafields@.len(),
            scan_datafields(dfs.skip(i as int), tag@, code@, pat, acc@) == extracted_field(
                record.deep_view(),
                tag@,
                code@,
                pat,
            ),
        decreases record.datafields@.len() - i,
    {
        let df = &record.datafields[i];
        proof {
            assert(dfs.skip(i as int)[0] == dfs[i as int]);
            assert(dfs[i as int] == df.deep_view());
            assert(dfs.skip(i as int).drop_first() =~= dfs.skip(i as int + 1));
        }
        if str_eq(df.tag.as_str(), tag) {
            let ghost sfs = df.deep_view().subfields;
            let ghost acc_entry = acc@;
            let mut j: usize = 0;
            while j < df.subfields.len()
                invariant
                    j <= df.subfields.len(),
                    sfs == df.deep_view().subfields,
                    pat == pattern_view(pattern),
                    sfs.len() == df.subfields@.len(),
                    scan_subfields(sfs.skip(j as int), code@, pat, acc@) == scan_subfields(
                        sfs,
                        code@,
                        pat,
                        acc_entry,
                    ),
                decreases df.subfields@.len() - j,
            {
                let sf = &df.subfields[j];
                proof {
                    assert(sfs.skip(j as int)[0] == sfs[j as int]);
                    assert(sfs[j as int] == sf.deep_view());
                    assert(sfs.skip(j as int).drop_first() =~= sfs.skip(j as int + 1));
                }
                if subfield_matches_exec(sf, code, pattern) {
                    acc = subfield_text_exec(sf);
                }
                j += 1;
            }
            proof {
                assert(sfs.skip(sfs.len() as int) =~= Seq::<SubFieldModel>::empty());
                assert(acc@ == scan_subfields(sfs, code@, pat, acc_entry));
            }
        }
        i += 1;
    }
    proof {
        assert(dfs.skip(dfs.len() as int) =~= Seq::<DataFieldModel>::empty());
    }
    acc
}

/// Extracts the title of one record: tag "245", subfield code "a".  The
/// last "245" subfield "a" in the record wins; a record without one gives
/// the empty string.
pub fn parse_title(record: &RecordXml) -> (r: String)
    ensures
        r@ == title_of(record.deep_view()),
{
    extract_field(record, "245", "a", Option::None)
}

/// Processes one decoded record for the report: extracts its title.
pub fn process_record(record: &RecordXml) -> (r: String)
    ensures
        r@ == title_of(record.deep_view()),
{
    parse_title(record)
}

proof fn lemma_scan_datafields_no_tag(
    dfs: Seq<DataFieldModel>,
    tag: Seq<char>,
    code: Seq<char>,
    pattern: Option<Seq<char>>,
    acc: Seq<char>,
)
    requires
        forall|i: int| 0 <= i < dfs.len() ==> (#[trigger] dfs[i]).tag != tag,
    ensures
        scan_datafields(dfs, tag, code, pattern, acc) == acc,
    decreases dfs.len(),
{
    if dfs.len() > 0 {
        assert(forall|i: int|
            0 <= i < dfs.drop_first().len() ==> (#[trigger] dfs.drop_first()[i]).tag != tag);
        lemma_scan_datafields_no_tag(dfs.drop_first(), tag, code, pattern, acc);
    }
}

/// Extraction from a record with no data field of the given tag returns
/// the empty string; absence is never an error.
pub proof fn lemma_extract_no_tag(
    r: RecordModel,
    tag: Seq<char>,
    code: Seq<char>,
    pattern: Option<Seq<char>>,
)
    requires
        forall|i: int| 0 <= i < r.datafields.len() ==> (#[trigger] r.datafields[i]).tag != tag,
    ensures
        extracted_field(r, tag, code, pattern) == Seq::<char>::empty(),
{
    lemma_scan_datafields_no_tag(r.datafields, tag, code, pattern, Seq::empty());
}

} // verus!
