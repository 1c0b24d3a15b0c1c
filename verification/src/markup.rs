use vstd::prelude::*;

verus! {

/// One visited markup element: its descendant text fragments in document
/// order, and the inline style attributes of itself and its ancestor
/// elements, nearest first (an element or ancestor without a style attribute
/// contributes an empty string).
pub struct RawElement {
    pub texts: Vec<String>,
    pub styles: Vec<String>,
}

/// The mathematical shadow of a [`RawElement`].
pub ghost struct RawElementView {
    pub texts: Seq<Seq<char>>,
    pub styles: Seq<Seq<char>>,
}

impl View for RawElement {
    type V = RawElementView;

    open spec fn view(&self) -> RawElementView {
        RawElementView { texts: self.texts.deep_view(), styles: self.styles.deep_view() }
    }
}

/// One candidate page container: its identifier attribute (empty when
/// absent) and the paragraph-, span- and division-like elements below it, in
/// document order.
pub struct RawBlock {
    pub id: String,
    pub elements: Vec<RawElement>,
}

/// The mathematical shadow of a [`RawBlock`].
pub ghost struct RawBlockView {
    pub id: Seq<char>,
    pub elements: Seq<RawElementView>,
}

impl View for RawBlock {
    type V = RawBlockView;

    open spec fn view(&self) -> RawBlockView {
        RawBlockView {
            id: self.id@,
            elements: self.elements@.map_values(|e: RawElement| e@),
        }
    }
}

/// The views of a sequence of blocks.
pub open spec fn block_views(s: Seq<RawBlock>) -> Seq<RawBlockView> {
    s.map_values(|b: RawBlock| b@)
}

/// What parsing a markup text yields: the `div` containers carrying an
/// identifier, in document order, each with its element contents as scraper's
/// HTML tree exposes them.  The tree is a function of the markup text alone.
pub uninterp spec fn markup_blocks(s: Seq<char>) -> Seq<RawBlockView>;

/// Relies on scraper's HTML parsing (`Html::parse_document`, `select`,
/// `text`, `ancestors` and `attr`): the parsed element tree, and with it the
/// containers, their descendant text fragments and the inline style chains
/// collected here, are a function of the markup text alone.
#[verifier::external_body]
pub fn parse_markup_blocks(html: &str) -> (r: Vec<RawBlock>)
    ensures
        r@.map_values(|b: RawBlock| b@) == markup_blocks(html@),
{
    let doc = scraper::Html::parse_document(html);
    let block_sel = scraper::Selector::parse("div[id]").unwrap();
    let elem_sel = scraper::Selector::parse("p, span, div").unwrap();
    doc.select(&block_sel).map(|b| RawBlock {
        id: b.value().attr("id").unwrap_or("").to_string(),
        elements: b.select(&elem_sel).map(|el| RawElement {
            texts: el.text().map(str::to_string).collect(),
            styles: std::iter::once(el).chain(el.ancestors().filter_map(scraper::ElementRef::wrap))
                .map(|a| a.value().attr("style").unwrap_or("").to_string()).collect(),
        }).collect(),
    }).collect()
}

} // verus!
