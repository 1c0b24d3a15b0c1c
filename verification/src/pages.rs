use vstd::prelude::*;

use crate::date::{date_iso_spec, parse_date_to_iso};
use crate::grammar::{is_date_chars, is_date_text_spec, is_pagopa_chars, is_pagopa_text_spec,
    page_index_of, page_index_spec};
use crate::markup::{block_views, markup_blocks, parse_markup_blocks, RawBlock, RawBlockView,
    RawElement, RawElementView};
use crate::rank::{item_views, rank_items, rank_spec, Item, ItemView};
use crate::style::{calculate_score, find_coordinates, score_of, styles_axis, Axis};
use crate::text::{chars_to_string, joined_text, strip_spaces, strip_spaces_chars, text_of};

verus! {

/// The two candidate kinds a fragment can be classified as.
#[derive(Clone, Copy, PartialEq, Eq, Structural, Debug)]
pub enum Kind {
    Date,
    PagoPa,
}

/// Whether a raw joined text matches the grammar of a kind.
pub open spec fn kind_matches(kind: Kind, s: Seq<char>) -> bool {
    match kind {
        Kind::Date => is_date_text_spec(s),
        Kind::PagoPa => is_pagopa_text_spec(s),
    }
}

/// The candidate an element yields for a kind: its raw joined text must be
/// non-empty and match the kind's grammar; the stored value is the text with
/// all whitespace removed, and the score comes from the element's resolved
/// coordinates.
pub open spec fn element_item(el: RawElementView, kind: Kind) -> Option<ItemView> {
    let txt = joined_text(el.texts);
    if txt.len() > 0 && kind_matches(kind, txt) {
        Some(
            ItemView {
                val: strip_spaces(txt),
                score: score_of(
                    styles_axis(el.styles, Axis::Top),
                    styles_axis(el.styles, Axis::Left),
                ),
            },
        )
    } else {
        None
    }
}

/// All candidates of one kind over a page's elements, in document order.
pub open spec fn page_items(els: Seq<RawElementView>, kind: Kind) -> Seq<ItemView>
    decreases els.len(),
{
    if els.len() == 0 {
        Seq::empty()
    } else {
        page_items(els.drop_last(), kind) + match element_item(els.last(), kind) {
            Some(it) => seq![it],
            None => Seq::empty(),
        }
    }
}

/// Collects, deduplicates and rank-orders the candidates of one kind inside
/// one page container.
#[verifier::loop_isolation(false)]
pub fn collect_items_for_root(elements: &Vec<RawElement>, kind: Kind) -> (r: Vec<Item>)
    ensures
        item_views(r@) == rank_spec(
            page_items(elements@.map_values(|e: RawElement| e@), kind),
        ),
{
    let ghost evs: Seq<RawElementView> = elements@.map_values(|e: RawElement| e@);
    let mut found: Vec<Item> = Vec::new();
    let mut i: usize = 0;
    proof {
        assert(item_views(found@) =~= Seq::<ItemView>::empty());
        assert(evs.take(0) =~= Seq::<RawElementView>::empty());
    }
    let n = elements.len();
    while i < n
        invariant
            0 <= i <= n,
            n == elements@.len(),
            evs == elements@.map_values(|e: RawElement| e@),
            item_views(found@) == page_items(evs.take(i as int), kind),
        decreases n - i,
    {
        let el = &elements[i];
        proof {
            assert(evs[i as int] == elements@[i as int]@);
            assert(evs.take(i + 1).drop_last() =~= evs.take(i as int));
            assert(evs.take(i + 1).last() == evs[i as int]);
        }
        let txt = text_of(&el.texts);
        let matched: bool = if txt.len() > 0 {
            match kind {
                Kind::Date => is_date_chars(&txt),
                Kind::PagoPa => is_pagopa_chars(&txt),
            }
        } else {
            false
        };
        let ghost pre: Seq<ItemView> = item_views(found@);
        if matched {
            let stripped = strip_spaces_chars(&txt);
            let val = chars_to_string(&stripped);
            let (t, l) = find_coordinates(&el.styles);
            let score = calculate_score(t, l);
            found.push(Item { val, score });
            proof {
                let it = element_item(evs[i as int], kind)->Some_0;
                assert(found@.last()@ == it);
                assert(item_views(found@) =~= pre.push(it));
                assert(page_items(evs.take(i + 1), kind) =~= pre.push(it));
            }
        } else {
            proof {
                assert(element_item(evs[i as int], kind) is None);
                assert(page_items(evs.take(i + 1), kind) =~= pre);
            }
        }
        i = i + 1;
    }
    proof {
        assert(evs.take(n as int) =~= evs);
    }
    rank_items(found)
}

// ---------------------------------------------------------------------------
// Page pairing.
// ---------------------------------------------------------------------------

/// The pairs a page contributes: only when both rankings are non-empty, the
/// two rank-ordered lists zipped index by index up to the shorter length.
pub open spec fn zip_vals(d: Seq<ItemView>, c: Seq<ItemView>) -> Seq<(Seq<char>, Seq<char>)> {
    Seq::new(
        if d.len() <= c.len() {
            d.len()
        } else {
            c.len()
        },
        |i: int| (d[i].val, c[i].val),
    )
}

/// The (date text, code text) pairs of one page container.
pub open spec fn block_pairs(b: RawBlockView) -> Seq<(Seq<char>, Seq<char>)> {
    let d = rank_spec(page_items(b.elements, Kind::Date));
    let c = rank_spec(page_items(b.elements, Kind::PagoPa));
    if d.len() > 0 && c.len() > 0 {
        zip_vals(d, c)
    } else {
        Seq::empty()
    }
}

/// The pairing law of one page: a page lacking candidates of either kind
/// contributes no pairs at all, and a page with both kinds contributes
/// exactly one pair per rank up to the shorter ranking; unpaired tail
/// candidates are discarded.
pub proof fn lemma_block_pairs_len(b: RawBlockView)
    ensures
        rank_spec(page_items(b.elements, Kind::Date)).len() == 0 || rank_spec(
            page_items(b.elements, Kind::PagoPa),
        ).len() == 0 ==> block_pairs(b).len() == 0,
        rank_spec(page_items(b.elements, Kind::Date)).len() > 0 && rank_spec(
            page_items(b.elements, Kind::PagoPa),
        ).len() > 0 ==> block_pairs(b).len() == vstd::math::min(
            rank_spec(page_items(b.elements, Kind::Date)).len() as int,
            rank_spec(page_items(b.elements, Kind::PagoPa)).len() as int,
        ),
{
}

/// The page entries of a document: every container whose identifier encodes
/// a page index, with its pairs, in document order.
pub open spec fn page_entries(blocks: Seq<RawBlockView>) -> Seq<
    (u32, Seq<(Seq<char>, Seq<char>)>),
>
    decreases blocks.len(),
{
    if blocks.len() == 0 {
        Seq::empty()
    } else {
        page_entries(blocks.drop_last()) + match page_index_spec(blocks.last().id) {
            Some(n) => seq![(n, block_pairs(blocks.last()))],
            None => Seq::empty(),
        }
    }
}

/// Insertion of a page entry into an index-sorted run, after every entry
/// whose page index does not exceed it.
pub open spec fn insert_entry(
    s: Seq<(u32, Seq<(Seq<char>, Seq<char>)>)>,
    e: (u32, Seq<(Seq<char>, Seq<char>)>),
) -> Seq<(u32, Seq<(Seq<char>, Seq<char>)>)>
    decreases s.len(),
{
    if s.len() == 0 {
        seq![e]
    } else if s.last().0 <= e.0 {
        s.push(e)
    } else {
        insert_entry(s.drop_last(), e).push(s.last())
    }
}

/// Stable insertion sort of page entries by ascending page index.
pub open spec fn sort_entries(s: Seq<(u32, Seq<(Seq<char>, Seq<char>)>)>) -> Seq<
    (u32, Seq<(Seq<char>, Seq<char>)>),
>
    decreases s.len(),
{
    if s.len() == 0 {
        Seq::empty()
    } else {
        insert_entry(sort_entries(s.drop_last()), s.last())
    }
}

/// The pairs of all page entries concatenated in their order.
pub open spec fn concat_entries(s: Seq<(u32, Seq<(Seq<char>, Seq<char>)>)>) -> Seq<
    (Seq<char>, Seq<char>),
>
    decreases s.len(),
{
    if s.len() == 0 {
        Seq::empty()
    } else {
        concat_entries(s.drop_last()) + s.last().1
    }
}

/// The document-level pair sequence: pages in ascending page-index order,
/// each contributing its zipped pairs; pairs of one page never mix with
/// another page's candidates.
pub open spec fn raw_pairs_of(blocks: Seq<RawBlockView>) -> Seq<(Seq<char>, Seq<char>)> {
    concat_entries(sort_entries(page_entries(blocks)))
}

/// The view of one raw (date text, code text) pair.
pub open spec fn pair_view(p: (String, String)) -> (Seq<char>, Seq<char>) {
    (p.0@, p.1@)
}

/// The views of a sequence of raw pairs.
pub open spec fn pair_views(s: Seq<(String, String)>) -> Seq<(Seq<char>, Seq<char>)> {
    s.map_values(|p: (String, String)| pair_view(p))
}

/// The view of one built page entry.
pub open spec fn entry_view(e: (u32, Vec<(String, String)>)) -> (
    u32,
    Seq<(Seq<char>, Seq<char>)>,
) {
    (e.0, pair_views(e.1@))
}

/// The views of built page entries.
pub open spec fn entry_views(s: Seq<(u32, Vec<(String, String)>)>) -> Seq<
    (u32, Seq<(Seq<char>, Seq<char>)>),
> {
    s.map_values(|e: (u32, Vec<(String, String)>)| entry_view(e))
}

proof fn lemma_insert_entry_at(
    s: Seq<(u32, Seq<(Seq<char>, Seq<char>)>)>,
    e: (u32, Seq<(Seq<char>, Seq<char>)>),
    p: int,
)
    requires
        0 <= p <= s.len(),
        forall|j: int| p <= j < s.len() ==> (#[trigger] s[j]).0 > e.0,
        p > 0 ==> s[p - 1].0 <= e.0,
    ensures
        insert_entry(s, e) == s.take(p) + seq![e] + s.skip(p),
    decreases s.len() - p,
{
    if p == s.len() {
        if s.len() == 0 {
            assert(insert_entry(s, e) =~= s.take(p) + seq![e] + s.skip(p));
        } else {
            assert(s.last() == s[s.len() - 1]);
            assert(insert_entry(s, e) == s.push(e));
            assert(s.push(e) =~= s.take(p) + seq![e] + s.skip(p));
        }
    } else {
        assert(s.last() == s[s.len() - 1]);
        assert(s.last().0 > e.0);
        lemma_insert_entry_at(s.drop_last(), e, p);
        assert(s.drop_last().take(p) =~= s.take(p));
        assert(insert_entry(s, e) == insert_entry(s.drop_last(), e).push(s.last()));
        assert((s.drop_last().take(p) + seq![e] + s.drop_last().skip(p)).push(s.last()) =~= s.take(
            p,
        ) + seq![e] + s.skip(p));
    }
}

/// Zips two ranked candidate lists into value pairs.
#[verifier::loop_isolation(false)]
fn zip_pairs(dates: &Vec<Item>, codes: &Vec<Item>) -> (r: Vec<(String, String)>)
    ensures
        pair_views(r@) == zip_vals(item_views(dates@), item_views(codes@)),
{
    let m: usize = if dates.len() <= codes.len() {
        dates.len()
    } else {
        codes.len()
    };
    let mut out: Vec<(String, String)> = Vec::new();
    let mut j: usize = 0;
    while j < m
        invariant
            0 <= j <= m,
            m <= dates@.len(),
            m <= codes@.len(),
            m == if dates@.len() <= codes@.len() {
                dates@.len()
            } else {
                codes@.len()
            },
            pair_views(out@) == zip_vals(item_views(dates@), item_views(codes@)).take(j as int),
        decreases m - j,
    {
        let ghost pre: Seq<(Seq<char>, Seq<char>)> = pair_views(out@);
        out.push((dates[j].val.clone(), codes[j].val.clone()));
        proof {
            let z = zip_vals(item_views(dates@), item_views(codes@));
            assert(z[j as int] == (dates@[j as int]@.val, codes@[j as int]@.val));
            assert(pair_views(out@) =~= pre.push(z[j as int]));
            assert(z.take(j + 1) =~= z.take(j as int).push(z[j as int]));
        }
        j = j + 1;
    }
    proof {
        let z = zip_vals(item_views(dates@), item_views(codes@));
        assert(z.take(m as int) =~= z);
    }
    out
}

/// Walks the page containers of a parsed document: containers whose
/// identifier encodes a page index are ordered ascending by that index, each
/// page's date and code candidates are ranked, and pages with both kinds
/// present contribute their zipped pairs, in page order.
#[verifier::loop_isolation(false)]
pub fn process_pages(blocks: &Vec<RawBlock>) -> (r: Vec<(String, String)>)
    ensures
        pair_views(r@) == raw_pairs_of(block_views(blocks@)),
{
    let ghost bvs: Seq<RawBlockView> = block_views(blocks@);
    let mut entries: Vec<(u32, Vec<(String, String)>)> = Vec::new();
    let mut i: usize = 0;
    proof {
        assert(entry_views(entries@) =~= Seq::<(u32, Seq<(Seq<char>, Seq<char>)>)>::empty());
        assert(bvs.take(0) =~= Seq::<RawBlockView>::empty());
    }
    let n = blocks.len();
    while i < n
        invariant
            0 <= i <= n,
            n == blocks@.len(),
            bvs == block_views(blocks@),
            entry_views(entries@) == sort_entries(page_entries(bvs.take(i as int))),
        decreases n - i,
    {
        proof {
            assert(bvs[i as int] == blocks@[i as int]@);
            assert(bvs.take(i + 1).drop_last() =~= bvs.take(i as int));
            assert(bvs.take(i + 1).last() == bvs[i as int]);
        }
        let ghost pre: Seq<(u32, Seq<(Seq<char>, Seq<char>)>)> = entry_views(entries@);
        match page_index_of(blocks[i].id.as_str()) {
            None => {
                proof {
                    assert(page_entries(bvs.take(i + 1)) =~= page_entries(bvs.take(i as int)));
                }
            },
            Some(pno) => {
                let dates = collect_items_for_root(&blocks[i].elements, Kind::Date);
                let codes = collect_items_for_root(&blocks[i].elements, Kind::PagoPa);
                let pv: Vec<(String, String)> = if dates.len() > 0 && codes.len() > 0 {
                    zip_pairs(&dates, &codes)
                } else {
                    Vec::new()
                };
                proof {
                    assert(pair_views(Seq::<(String, String)>::empty())
                        =~= Seq::<(Seq<char>, Seq<char>)>::empty());
                    assert(pair_views(pv@) == block_pairs(bvs[i as int]));
                    assert(page_entries(bvs.take(i + 1)) =~= page_entries(bvs.take(i as int)).push(
                        (pno, block_pairs(bvs[i as int])),
                    ));
                }
                let mut p: usize = entries.len();
                while p > 0 && entries[p - 1].0 > pno
                    invariant
                        0 <= p <= entries@.len(),
                        forall|j: int| p <= j < entries@.len() ==> (#[trigger] pre[j]).0 > pno,
                        pre == entry_views(entries@),
                    decreases p,
                {
                    p = p - 1;
                }
                proof {
                    if p > 0 {
                        assert(pre[p - 1] == entry_view(entries@[p - 1]));
                        assert(pre[p - 1].0 <= pno);
                    }
                    lemma_insert_entry_at(pre, (pno, block_pairs(bvs[i as int])), p as int);
                }
                entries.insert(p, (pno, pv));
                proof {
                    let e = (pno, block_pairs(bvs[i as int]));
                    assert(entry_views(entries@) =~= pre.take(p as int) + seq![e] + pre.skip(
                        p as int,
                    ));
                    assert(entry_views(entries@) == insert_entry(pre, e));
                    let pe1 = page_entries(bvs.take(i + 1));
                    assert(pe1 == page_entries(bvs.take(i as int)).push(e));
                    assert(pe1.len() > 0);
                    assert(pe1.drop_last() =~= page_entries(bvs.take(i as int)));
                    assert(pe1.last() == e);
                    assert(sort_entries(pe1) == insert_entry(
                        sort_entries(page_entries(bvs.take(i as int))),
                        e,
                    ));
                }
            },
        }
        i = i + 1;
    }
    proof {
        assert(bvs.take(n as int) =~= bvs);
    }
    // concatenate the pairs in page order
    let mut out: Vec<(String, String)> = Vec::new();
    let mut k: usize = 0;
    proof {
        assert(pair_views(out@) =~= Seq::<(Seq<char>, Seq<char>)>::empty());
        assert(entry_views(entries@).take(0) =~= Seq::<(u32, Seq<(Seq<char>, Seq<char>)>)>::empty());
    }
    let m = entries.len();
    while k < m
        invariant
            0 <= k <= m,
            m == entries@.len(),
            entry_views(entries@) == sort_entries(page_entries(bvs)),
            pair_views(out@) == concat_entries(entry_views(entries@).take(k as int)),
        decreases m - k,
    {
        let ghost evs: Seq<(u32, Seq<(Seq<char>, Seq<char>)>)> = entry_views(entries@);
        proof {
            assert(evs.take(k + 1).drop_last() =~= evs.take(k as int));
            assert(evs.take(k + 1).last() == evs[k as int]);
        }
        let ghost base: Seq<(Seq<char>, Seq<char>)> = pair_views(out@);
        let inner = &entries[k].1;
        let mut q: usize = 0;
        while q < inner.len()
            invariant
                0 <= q <= inner@.len(),
                inner@ == entries@[k as int].1@,
                k < entries@.len(),
                pair_views(out@) == base + pair_views(inner@).take(q as int),
            decreases inner@.len() - q,
        {
            let ghost mid: Seq<(Seq<char>, Seq<char>)> = pair_views(out@);
            out.push((inner[q].0.clone(), inner[q].1.clone()));
            proof {
                assert(pair_views(out@) =~= mid.push(pair_view(inner@[q as int])));
                assert(pair_views(inner@).take(q + 1) =~= pair_views(inner@).take(q as int).push(
                    pair_view(inner@[q as int]),
                ));
                assert(base + pair_views(inner@).take(q + 1) =~= (base + pair_views(inner@).take(
                    q as int,
                )).push(pair_view(inner@[q as int])));
            }
            q = q + 1;
        }
        proof {
            assert(pair_views(inner@).take(inner@.len() as int) =~= pair_views(inner@));
            assert(evs[k as int].1 == pair_views(entries@[k as int].1@));
            assert(pair_views(out@) =~= concat_entries(evs.take(k + 1)));
        }
        k = k + 1;
    }
    proof {
        assert(entry_views(entries@).take(m as int) =~= entry_views(entries@));
    }
    out
}

// ---------------------------------------------------------------------------
// Date normalization over the pair sequence.
// ---------------------------------------------------------------------------

/// One (date, code) pair of the document: an ISO-8601 timestamp and an
/// 18-digit payment code.
pub struct DateCodePair {
    pub date: String,
    pub code: String,
}

/// The mathematical shadow of a [`DateCodePair`].
pub ghost struct DateCodePairView {
    pub date: Seq<char>,
    pub code: Seq<char>,
}

impl View for DateCodePair {
    type V = DateCodePairView;

    open spec fn view(&self) -> DateCodePairView {
        DateCodePairView { date: self.date@, code: self.code@ }
    }
}

/// The views of a sequence of pairs.
pub open spec fn date_pair_views(s: Seq<DateCodePair>) -> Seq<DateCodePairView> {
    s.map_values(|p: DateCodePair| p@)
}

/// Date normalization over the raw pair sequence: a pair whose date text is
/// not a valid calendar date is dropped; the others keep their order.
pub open spec fn date_filter(ps: Seq<(Seq<char>, Seq<char>)>) -> Seq<DateCodePairView>
    decreases ps.len(),
{
    if ps.len() == 0 {
        Seq::empty()
    } else {
        date_filter(ps.drop_last()) + match date_iso_spec(ps.last().0) {
            Some(iso) => seq![DateCodePairView { date: iso, code: ps.last().1 }],
            None => Seq::empty(),
        }
    }
}

/// The document's normalized pair sequence.
pub open spec fn doc_pairs(blocks: Seq<RawBlockView>) -> Seq<DateCodePairView> {
    date_filter(raw_pairs_of(blocks))
}

/// Converts a markup text into the document-level sequence of (ISO date,
/// payment code) pairs: pages in ascending index order, candidates ranked by
/// proximity, pairs zipped per page, dates normalized.
#[verifier::loop_isolation(false)]
pub fn extract_dates_and_codes_from_html(html: &str) -> (r: Vec<DateCodePair>)
    ensures
        date_pair_views(r@) == doc_pairs(markup_blocks(html@)),
{
    let blocks = parse_markup_blocks(html);
    let raw = process_pages(&blocks);
    let ghost rvs: Seq<(Seq<char>, Seq<char>)> = pair_views(raw@);
    let mut out: Vec<DateCodePair> = Vec::new();
    let mut i: usize = 0;
    proof {
        assert(date_pair_views(out@) =~= Seq::<DateCodePairView>::empty());
        assert(rvs.take(0) =~= Seq::<(Seq<char>, Seq<char>)>::empty());
    }
    let n = raw.len();
    while i < n
        invariant
            0 <= i <= n,
            n == raw@.len(),
            rvs == pair_views(raw@),
            date_pair_views(out@) == date_filter(rvs.take(i as int)),
        decreases n - i,
    {
        proof {
            assert(rvs[i as int] == pair_view(raw@[i as int]));
            assert(rvs.take(i + 1).drop_last() =~= rvs.take(i as int));
            assert(rvs.take(i + 1).last() == rvs[i as int]);
        }
        let ghost pre: Seq<DateCodePairView> = date_pair_views(out@);
        match parse_date_to_iso(raw[i].0.as_str()) {
            Some(iso) => {
                out.push(DateCodePair { date: iso, code: raw[i].1.clone() });
                proof {
                    let pv = DateCodePairView {
                        date: date_iso_spec(rvs[i as int].0)->Some_0,
                        code: rvs[i as int].1,
                    };
                    assert(out@.last()@ == pv);
                    assert(date_pair_views(out@) =~= pre.push(pv));
                    assert(date_filter(rvs.take(i + 1)) =~= pre.push(pv));
                }
            },
            None => {
                proof {
                    assert(date_filter(rvs.take(i + 1)) =~= pre);
                }
            },
        }
        i = i + 1;
    }
    proof {
        assert(rvs.take(n as int) =~= rvs);
    }
    out
}

} // verus!
