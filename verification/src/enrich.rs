use vstd::prelude::*;

use crate::grammar::{extract_code_spec, pagopa_qr_code_from_payload};
use crate::markup::markup_blocks;
use crate::pages::{date_pair_views, doc_pairs, extract_dates_and_codes_from_html, DateCodePair,
    DateCodePairView};
use vstd::slice::SliceAdditionalExecFns;

verus! {

/// One decoded barcode: its symbology name, its raw payload text, and the
/// due date enrichment attaches when the payload's embedded code was seen on
/// a page.
#[derive(Debug, Clone, PartialEq, Eq)]
pub struct BarcodeData {
    pub symbology: String,
    pub data: String,
    pub date: Option<String>,
}

/// The mathematical shadow of a [`BarcodeData`].
pub ghost struct BarcodeDataView {
    pub symbology: Seq<char>,
    pub data: Seq<char>,
    pub date: Option<Seq<char>>,
}

impl View for BarcodeData {
    type V = BarcodeDataView;

    open spec fn view(&self) -> BarcodeDataView {
        BarcodeDataView {
            symbology: self.symbology@,
            data: self.data@,
            date: match self.date {
                Some(d) => Some(d@),
                None => None,
            },
        }
    }
}

/// The result of scanning one document: its decoded barcodes, enriched.
pub struct ScanResult {
    pub barcodes: Vec<BarcodeData>,
}

/// The date a code maps to in the document's pair sequence: the last pair
/// carrying that code wins (page order, then in-page rank order).
pub open spec fn lookup_date(pairs: Seq<DateCodePairView>, code: Seq<char>) -> Option<Seq<char>>
    decreases pairs.len(),
{
    if pairs.len() == 0 {
        None
    } else if pairs.last().code == code {
        Some(pairs.last().date)
    } else {
        lookup_date(pairs.drop_last(), code)
    }
}

/// What enrichment does to one decoded barcode: when its payload holds an
/// embedded payment code and the document's pairs know that code, the
/// barcode gains that date; otherwise it is unchanged.
pub open spec fn enrich_one(b: BarcodeDataView, pairs: Seq<DateCodePairView>) -> BarcodeDataView {
    match extract_code_spec(b.data) {
        Some(code) => match lookup_date(pairs, code) {
            Some(d) => BarcodeDataView { symbology: b.symbology, data: b.data, date: Some(d) },
            None => b,
        },
        None => b,
    }
}

#[verifier::loop_isolation(false)]
fn lookup_date_exec(pairs: &Vec<DateCodePair>, code: &String) -> (r: Option<String>)
    ensures
        r is Some <==> lookup_date(date_pair_views(pairs@), code@) is Some,
        r matches Some(d) ==> lookup_date(date_pair_views(pairs@), code@) == Some(d@),
{
    let ghost pvs: Seq<DateCodePairView> = date_pair_views(pairs@);
    let mut j: usize = pairs.len();
    proof {
        assert(pvs.take(j as int) =~= pvs);
    }
    while j > 0
        invariant
            0 <= j <= pairs@.len(),
            pvs == date_pair_views(pairs@),
            lookup_date(pvs, code@) == lookup_date(pvs.take(j as int), code@),
        decreases j,
    {
        proof {
            assert(pvs.take(j as int).last() == pvs[j - 1]);
            assert(pvs[j - 1] == pairs@[j - 1]@);
            assert(pvs.take(j as int).drop_last() =~= pvs.take(j - 1));
        }
        if pairs[j - 1].code == *code {
            return Some(pairs[j - 1].date.clone());
        }
        j = j - 1;
    }
    proof {
        assert(pvs.take(0) =~= Seq::<DateCodePairView>::empty());
    }
    None
}

/// Attaches a due date to every decoded barcode whose payload embeds a
/// payment code that the pair sequence knows; all other barcodes, and every
/// other field, stay unchanged.  This never fails: an unmatched barcode is a
/// normal outcome.
#[verifier::loop_isolation(false)]
pub fn enrich_barcodes_with_dates(barcodes: &mut Vec<BarcodeData>, pairs: &Vec<DateCodePair>)
    ensures
        final(barcodes)@.len() == old(barcodes)@.len(),
        forall|i: int|
            0 <= i < old(barcodes)@.len() ==> final(barcodes)@[i]@ == enrich_one(
                old(barcodes)@[i]@,
                date_pair_views(pairs@),
            ),
{
    let ghost pvs: Seq<DateCodePairView> = date_pair_views(pairs@);
    let n = barcodes.len();
    let mut i: usize = 0;
    while i < n
        invariant
            0 <= i <= n,
            n == old(barcodes)@.len(),
            barcodes@.len() == n,
            pvs == date_pair_views(pairs@),
            forall|j: int| 0 <= j < i ==> barcodes@[j]@ == enrich_one(old(barcodes)@[j]@, pvs),
            forall|j: int| i <= j < n ==> barcodes@[j] == old(barcodes)@[j],
        decreases n - i,
    {
        let code_opt = pagopa_qr_code_from_payload(barcodes[i].data.as_str());
        match code_opt {
            Some(code) => {
                match lookup_date_exec(pairs, &code) {
                    Some(d) => {
                        let nb = BarcodeData {
                            symbology: barcodes[i].symbology.clone(),
                            data: barcodes[i].data.clone(),
                            date: Some(d),
                        };
                        proof {
                            assert(nb@ == enrich_one(old(barcodes)@[i as int]@, pvs));
                        }
                        barcodes.as_mut_slice().set(i, nb);
                    },
                    None => {
                        proof {
                            assert(barcodes@[i as int]@ == enrich_one(
                                old(barcodes)@[i as int]@,
                                pvs,
                            ));
                        }
                    },
                }
            },
            None => {
                proof {
                    assert(barcodes@[i as int]@ == enrich_one(old(barcodes)@[i as int]@, pvs));
                }
            },
        }
        i = i + 1;
    }
}

/// The whole enrichment flow over one document: converts the markup text
/// into the document's (date, code) pairs and attaches dates to the decoded
/// barcodes.  The result is a function of the two arguments alone, so
/// running it twice on the same inputs yields identical output.
pub fn enrich_records(html: &str, barcodes: &mut Vec<BarcodeData>)
    ensures
        final(barcodes)@.len() == old(barcodes)@.len(),
        forall|i: int|
            0 <= i < old(barcodes)@.len() ==> final(barcodes)@[i]@ == enrich_one(
                old(barcodes)@[i]@,
                doc_pairs(markup_blocks(html@)),
            ),
{
    let pairs = extract_dates_and_codes_from_html(html);
    enrich_barcodes_with_dates(barcodes, &pairs);
}

} // verus!
