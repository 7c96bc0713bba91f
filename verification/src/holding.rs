//! Holdings and the line-oriented holding-file format.
//!
//! One line holds one record: `SYMBOL|Display|Description|Quantity|CostBasis`.
//! Blank lines and lines starting with `#` are ignored; a line parses as a
//! holding when it has at least three fields, with quantity and cost basis
//! defaulting to zero when missing or unparsable.  Parse failures of one
//! line never affect the rest of the file.

use vstd::prelude::*;

use crate::amount::{parse_amount, spec_parse_amount};
use crate::bytes::{eq_bytes, lemma_deep_view_index, spec_trim, split_bytes, split_on, trim_bytes};
use crate::amount::{render_amount, spec_render_amount};
use crate::market::{has_tw_marker, market_of, Market};
use crate::money::amount_ok;

verus! {

/// One holding line: an instrument position inside one portfolio file.
pub struct Holding {
    pub symbol: Vec<u8>,
    pub display: Vec<u8>,
    pub name: Vec<u8>,
    pub quantity: i64,
    pub cost_basis: i64,
}

/// Mathematical image of a holding.
pub struct HoldingView {
    pub symbol: Seq<u8>,
    pub display: Seq<u8>,
    pub name: Seq<u8>,
    pub quantity: i64,
    pub cost_basis: i64,
}

impl View for Holding {
    type V = HoldingView;

    open spec fn view(&self) -> HoldingView {
        HoldingView {
            symbol: self.symbol@,
            display: self.display@,
            name: self.name@,
            quantity: self.quantity,
            cost_basis: self.cost_basis,
        }
    }
}

/// Quantity and cost basis are non-negative and within range.
pub open spec fn holding_wf(h: HoldingView) -> bool {
    &&& amount_ok(h.quantity)
    &&& amount_ok(h.cost_basis)
}

/// The views of a list of holdings.
pub open spec fn holdings_view(s: Seq<Holding>) -> Seq<HoldingView> {
    Seq::new(s.len(), |i: int| s[i]@)
}

/// Copy a holding.
pub fn clone_holding(h: &Holding) -> (r: Holding)
    ensures
        r@ == h@,
{
    Holding {
        symbol: crate::bytes::clone_bytes(&h.symbol),
        display: crate::bytes::clone_bytes(&h.display),
        name: crate::bytes::clone_bytes(&h.name),
        quantity: h.quantity,
        cost_basis: h.cost_basis,
    }
}

/// What one line of a holding file denotes: `None` for blank lines,
/// comments, and lines with fewer than three fields; otherwise the
/// holding, with each field trimmed and amounts defaulting to zero.
pub open spec fn spec_parse_line(line: Seq<u8>) -> Option<HoldingView> {
    let t = spec_trim(line);
    if t.len() == 0 || t[0] == 35 {
        None
    } else {
        let fields = split_on(t, 124);
        if fields.len() >= 3 {
            Some(
                HoldingView {
                    symbol: spec_trim(fields[0]),
                    display: spec_trim(fields[1]),
                    name: spec_trim(fields[2]),
                    quantity: if fields.len() >= 4 {
                        spec_parse_amount(spec_trim(fields[3]))
                    } else {
                        0
                    },
                    cost_basis: if fields.len() >= 5 {
                        spec_parse_amount(spec_trim(fields[4]))
                    } else {
                        0
                    },
                },
            )
        } else {
            None
        }
    }
}

/// Parse one line of a holding file.
pub fn parse_holding_line(line: &Vec<u8>) -> (r: Option<Holding>)
    ensures
        match r {
            Some(h) => spec_parse_line(line@) == Some(h@) && holding_wf(h@),
            None => spec_parse_line(line@) is None,
        },
{
    let t = trim_bytes(line);
    if t.len() == 0 {
        return None;
    }
    if t[0] == 35 {
        return None;
    }
    let fields = split_bytes(&t, 124);
    proof {
        lemma_deep_view_index(&fields);
    }
    if fields.len() < 3 {
        return None;
    }
    let symbol = trim_bytes(&fields[0]);
    let display = trim_bytes(&fields[1]);
    let name = trim_bytes(&fields[2]);
    let quantity: i64 = if fields.len() >= 4 {
        let f = trim_bytes(&fields[3]);
        parse_amount(&f)
    } else {
        0
    };
    let cost_basis: i64 = if fields.len() >= 5 {
        let f = trim_bytes(&fields[4]);
        parse_amount(&f)
    } else {
        0
    };
    proof {
        assert(fields.deep_view()[0] == fields@[0]@);
        assert(fields.deep_view()[1] == fields@[1]@);
        assert(fields.deep_view()[2] == fields@[2]@);
        if fields@.len() >= 4 {
            assert(fields.deep_view()[3] == fields@[3]@);
        }
        if fields@.len() >= 5 {
            assert(fields.deep_view()[4] == fields@[4]@);
        }
    }
    Some(Holding { symbol, display, name, quantity, cost_basis })
}

/// The holdings denoted by a list of lines, in file order.
pub open spec fn spec_parse_lines(lines: Seq<Seq<u8>>) -> Seq<HoldingView>
    decreases lines.len(),
{
    if lines.len() == 0 {
        Seq::empty()
    } else {
        spec_parse_lines(lines.drop_last()) + match spec_parse_line(lines.last()) {
            Some(h) => seq![h],
            None => Seq::empty(),
        }
    }
}

/// The holdings a whole file denotes: its lines split at `\n`, parsed in
/// order, unparsable lines skipped.
pub open spec fn spec_parse_portfolio(text: Seq<u8>) -> Seq<HoldingView> {
    spec_parse_lines(split_on(text, 10))
}

/// Parse a whole holding file.
pub fn parse_portfolio(text: &Vec<u8>) -> (r: Vec<Holding>)
    ensures
        holdings_view(r@) == spec_parse_portfolio(text@),
        forall|i: int| 0 <= i < r@.len() ==> holding_wf(#[trigger] r@[i]@),
{
    let lines = split_bytes(text, 10);
    proof {
        lemma_deep_view_index(&lines);
    }
    let mut out: Vec<Holding> = Vec::new();
    let mut i: usize = 0;
    proof {
        assert(lines.deep_view().subrange(0, 0) =~= Seq::<Seq<u8>>::empty());
        assert(holdings_view(out@) =~= spec_parse_lines(lines.deep_view().subrange(0, 0)));
    }
    while i < lines.len()
        invariant
            0 <= i <= lines@.len(),
            lines.deep_view() == split_on(text@, 10),
            forall|k: int| 0 <= k < lines@.len() ==> lines.deep_view()[k] == lines@[k]@,
            holdings_view(out@) == spec_parse_lines(lines.deep_view().subrange(0, i as int)),
            forall|k: int| 0 <= k < out@.len() ==> holding_wf(#[trigger] out@[k]@),
        decreases lines@.len() - i,
    {
        let ghost prefix = lines.deep_view().subrange(0, i as int);
        let ghost prefix1 = lines.deep_view().subrange(0, i as int + 1);
        proof {
            assert(prefix1.drop_last() =~= prefix);
            assert(prefix1.last() == lines@[i as int]@);
        }
        match parse_holding_line(&lines[i]) {
            Some(h) => {
                let ghost prev = out@;
                out.push(h);
                proof {
                    assert(holdings_view(out@) =~= holdings_view(prev) + seq![h@]);
                    assert(holdings_view(out@) =~= spec_parse_lines(prefix1));
                }
            },
            None => {
                proof {
                    assert(spec_parse_lines(prefix1) =~= spec_parse_lines(prefix));
                }
            },
        }
        i = i + 1;
    }
    proof {
        assert(lines.deep_view().subrange(0, i as int) =~= lines.deep_view());
    }
    out
}


/// `# Stock Portfolio Configuration\n# Format: SYMBOL|Display Name|Description|Quantity|Cost Basis\n\n`
pub open spec fn spec_file_header() -> Seq<u8> {
    seq![35u8, 32u8, 83u8, 116u8, 111u8, 99u8, 107u8, 32u8, 80u8, 111u8, 114u8, 116u8, 102u8, 111u8, 108u8, 105u8, 111u8, 32u8, 67u8, 111u8, 110u8, 102u8, 105u8, 103u8, 117u8, 114u8, 97u8, 116u8, 105u8, 111u8, 110u8, 10u8, 35u8, 32u8, 70u8, 111u8, 114u8, 109u8, 97u8, 116u8, 58u8, 32u8, 83u8, 89u8, 77u8, 66u8, 79u8, 76u8, 124u8, 68u8, 105u8, 115u8, 112u8, 108u8, 97u8, 121u8, 32u8, 78u8, 97u8, 109u8, 101u8, 124u8, 68u8, 101u8, 115u8, 99u8, 114u8, 105u8, 112u8, 116u8, 105u8, 111u8, 110u8, 124u8, 81u8, 117u8, 97u8, 110u8, 116u8, 105u8, 116u8, 121u8, 124u8, 67u8, 111u8, 115u8, 116u8, 32u8, 66u8, 97u8, 115u8, 105u8, 115u8, 10u8, 10u8]
}

fn push_file_header(out: &mut Vec<u8>)
    ensures
        final(out)@ == old(out)@ + spec_file_header(),
{
    let a = [35, 32, 83, 116, 111, 99, 107, 32, 80, 111, 114, 116, 102, 111, 108, 105, 111, 32, 67, 111, 110, 102, 105, 103, 117, 114, 97, 116, 105, 111, 110, 10, 35, 32, 70, 111, 114, 109, 97, 116, 58, 32, 83, 89, 77, 66, 79, 76, 124, 68, 105, 115, 112, 108, 97, 121, 32, 78, 97, 109, 101, 124, 68, 101, 115, 99, 114, 105, 112, 116, 105, 111, 110, 124, 81, 117, 97, 110, 116, 105, 116, 121, 124, 67, 111, 115, 116, 32, 66, 97, 115, 105, 115, 10, 10u8];
    proof {
        assert(a@ =~= spec_file_header());
    }
    let mut i: usize = 0;
    while i < a.len()
        invariant
            0 <= i <= a@.len(),
            a@ == spec_file_header(),
            out@ == old(out)@ + a@.subrange(0, i as int),
        decreases a@.len() - i,
    {
        out.push(a[i]);
        i = i + 1;
        assert(out@ =~= old(out)@ + a@.subrange(0, i as int));
    }
    proof {
        assert(a@.subrange(0, a@.len() as int) =~= a@);
    }
}

/// `# Taiwan Stocks\n`
pub open spec fn spec_tw_section_header() -> Seq<u8> {
    seq![35u8, 32u8, 84u8, 97u8, 105u8, 119u8, 97u8, 110u8, 32u8, 83u8, 116u8, 111u8, 99u8, 107u8, 115u8, 10u8]
}

fn push_tw_section_header(out: &mut Vec<u8>)
    ensures
        final(out)@ == old(out)@ + spec_tw_section_header(),
{
    let a = [35, 32, 84, 97, 105, 119, 97, 110, 32, 83, 116, 111, 99, 107, 115, 10u8];
    proof {
        assert(a@ =~= spec_tw_section_header());
    }
    let mut i: usize = 0;
    while i < a.len()
        invariant
            0 <= i <= a@.len(),
            a@ == spec_tw_section_header(),
            out@ == old(out)@ + a@.subrange(0, i as int),
        decreases a@.len() - i,
    {
        out.push(a[i]);
        i = i + 1;
        assert(out@ =~= old(out)@ + a@.subrange(0, i as int));
    }
    proof {
        assert(a@.subrange(0, a@.len() as int) =~= a@);
    }
}

/// `# US Stocks\n`
pub open spec fn spec_us_section_header() -> Seq<u8> {
    seq![35u8, 32u8, 85u8, 83u8, 32u8, 83u8, 116u8, 111u8, 99u8, 107u8, 115u8, 10u8]
}

fn push_us_section_header(out: &mut Vec<u8>)
    ensures
        final(out)@ == old(out)@ + spec_us_section_header(),
{
    let a = [35, 32, 85, 83, 32, 83, 116, 111, 99, 107, 115, 10u8];
    proof {
        assert(a@ =~= spec_us_section_header());
    }
    let mut i: usize = 0;
    while i < a.len()
        invariant
            0 <= i <= a@.len(),
            a@ == spec_us_section_header(),
            out@ == old(out)@ + a@.subrange(0, i as int),
        decreases a@.len() - i,
    {
        out.push(a[i]);
        i = i + 1;
        assert(out@ =~= old(out)@ + a@.subrange(0, i as int));
    }
    proof {
        assert(a@.subrange(0, a@.len() as int) =~= a@);
    }
}


/// Append a copy of `src` to `out`.
pub(crate) fn push_bytes_of(out: &mut Vec<u8>, src: &Vec<u8>)
    ensures
        final(out)@ == old(out)@ + src@,
{
    let mut i: usize = 0;
    while i < src.len()
        invariant
            0 <= i <= src@.len(),
            out@ == old(out)@ + src@.subrange(0, i as int),
        decreases src@.len() - i,
    {
        out.push(src[i]);
        i = i + 1;
        assert(out@ =~= old(out)@ + src@.subrange(0, i as int));
    }
    proof {
        assert(src@.subrange(0, src@.len() as int) =~= src@);
    }
}

/// One rendered holding line: the five fields joined by `|`, then a
/// newline.
pub open spec fn spec_render_line(h: HoldingView) -> Seq<u8>
    recommends
        holding_wf(h),
{
    h.symbol + seq![124u8] + h.display + seq![124u8] + h.name + seq![124u8] + spec_render_amount(
        h.quantity,
    ) + seq![124u8] + spec_render_amount(h.cost_basis) + seq![10u8]
}

/// The rendered lines of a list of holdings, in order.
pub open spec fn spec_render_lines(s: Seq<HoldingView>) -> Seq<u8>
    decreases s.len(),
{
    if s.len() == 0 {
        Seq::empty()
    } else {
        spec_render_lines(s.drop_last()) + spec_render_line(s.last())
    }
}

/// The holding belongs to the Taiwan market segment.
pub open spec fn is_tw_holding(h: HoldingView) -> bool {
    has_tw_marker(h.symbol)
}

/// The holdings of the Taiwan segment, in file order.
pub open spec fn tw_holdings(s: Seq<HoldingView>) -> Seq<HoldingView> {
    s.filter(|h: HoldingView| is_tw_holding(h))
}

/// The holdings of the US segment, in file order.
pub open spec fn us_holdings(s: Seq<HoldingView>) -> Seq<HoldingView> {
    s.filter(|h: HoldingView| !is_tw_holding(h))
}

/// A rendered holding file: the fixed header comment, then one section
/// per market segment that has at least one holding, in file order
/// within each section, the Taiwan section followed by a blank line.
pub open spec fn spec_render_portfolio(s: Seq<HoldingView>) -> Seq<u8> {
    spec_file_header() + (if tw_holdings(s).len() > 0 {
        spec_tw_section_header() + spec_render_lines(tw_holdings(s)) + seq![10u8]
    } else {
        Seq::empty()
    }) + (if us_holdings(s).len() > 0 {
        spec_us_section_header() + spec_render_lines(us_holdings(s))
    } else {
        Seq::empty()
    })
}

/// Append one rendered holding line.
fn push_line(out: &mut Vec<u8>, h: &Holding)
    requires
        holding_wf(h@),
    ensures
        final(out)@ == old(out)@ + spec_render_line(h@),
{
    push_bytes_of(out, &h.symbol);
    out.push(124);
    push_bytes_of(out, &h.display);
    out.push(124);
    push_bytes_of(out, &h.name);
    out.push(124);
    let q = render_amount(h.quantity);
    push_bytes_of(out, &q);
    out.push(124);
    let c = render_amount(h.cost_basis);
    push_bytes_of(out, &c);
    out.push(10);
    proof {
        assert(out@ =~= old(out)@ + spec_render_line(h@));
    }
}

/// Render a holding list in the on-disk file format.
pub fn render_portfolio(holdings: &Vec<Holding>) -> (r: Vec<u8>)
    requires
        forall|i: int| 0 <= i < holdings@.len() ==> holding_wf(#[trigger] holdings@[i]@),
    ensures
        r@ == spec_render_portfolio(holdings_view(holdings@)),
{
    let ghost hv = holdings_view(holdings@);
    let mut tw_buf: Vec<u8> = Vec::new();
    let mut us_buf: Vec<u8> = Vec::new();
    let mut i: usize = 0;
    proof {
        reveal(Seq::filter);
        assert(hv.subrange(0, 0) =~= Seq::<HoldingView>::empty());
    }
    while i < holdings.len()
        invariant
            0 <= i <= holdings@.len(),
            hv == holdings_view(holdings@),
            forall|k: int| 0 <= k < holdings@.len() ==> holding_wf(#[trigger] holdings@[k]@),
            tw_buf@ == spec_render_lines(tw_holdings(hv.subrange(0, i as int))),
            us_buf@ == spec_render_lines(us_holdings(hv.subrange(0, i as int))),
        decreases holdings@.len() - i,
    {
        proof {
            lemma_market_filter_step(hv, i as int);
            lemma_render_lines_push(
                tw_holdings(hv.subrange(0, i as int)),
                hv[i as int],
            );
            lemma_render_lines_push(
                us_holdings(hv.subrange(0, i as int)),
                hv[i as int],
            );
            assert(hv[i as int] == holdings@[i as int]@);
        }
        let h = &holdings[i];
        if matches!(market_of(&h.symbol), Market::Taiwan) {
            push_line(&mut tw_buf, h);
        } else {
            push_line(&mut us_buf, h);
        }
        i = i + 1;
    }
    proof {
        assert(hv.subrange(0, holdings@.len() as int) =~= hv);
    }
    let mut out: Vec<u8> = Vec::new();
    push_file_header(&mut out);
    if tw_buf.len() > 0 {
        push_tw_section_header(&mut out);
        push_bytes_of(&mut out, &tw_buf);
        out.push(10);
    }
    if us_buf.len() > 0 {
        push_us_section_header(&mut out);
        push_bytes_of(&mut out, &us_buf);
    }
    proof {
        lemma_render_lines_empty_iff(tw_holdings(hv));
        lemma_render_lines_empty_iff(us_holdings(hv));
        assert(out@ =~= spec_render_portfolio(hv));
    }
    out
}

/// Extending the holding list by one element extends exactly one of the
/// two market filters by that element.
proof fn lemma_market_filter_step(s: Seq<HoldingView>, i: int)
    requires
        0 <= i < s.len(),
    ensures
        tw_holdings(s.subrange(0, i + 1)) == if is_tw_holding(s[i]) {
            tw_holdings(s.subrange(0, i)).push(s[i])
        } else {
            tw_holdings(s.subrange(0, i))
        },
        us_holdings(s.subrange(0, i + 1)) == if !is_tw_holding(s[i]) {
            us_holdings(s.subrange(0, i)).push(s[i])
        } else {
            us_holdings(s.subrange(0, i))
        },
{
    reveal(Seq::filter);
    let p1 = s.subrange(0, i + 1);
    assert(p1.drop_last() =~= s.subrange(0, i));
    assert(p1.last() == s[i]);
}

/// Rendering distributes over appending one holding.
proof fn lemma_render_lines_push(s: Seq<HoldingView>, h: HoldingView)
    ensures
        spec_render_lines(s.push(h)) == spec_render_lines(s) + spec_render_line(h),
{
    assert(s.push(h).drop_last() =~= s);
    assert(s.push(h).last() == h);
}

/// A rendered line list is empty exactly when the holding list is.
proof fn lemma_render_lines_empty_iff(s: Seq<HoldingView>)
    ensures
        spec_render_lines(s).len() == 0 <==> s.len() == 0,
    decreases s.len(),
{
    if s.len() > 0 {
        lemma_render_lines_empty_iff(s.drop_last());
        assert(spec_render_line(s.last()).len() > 0);
    }
}


/// Index of the first holding with the given symbol, or the list length
/// if none matches.
pub open spec fn find_symbol(s: Seq<HoldingView>, sym: Seq<u8>) -> int
    decreases s.len(),
{
    if s.len() == 0 {
        0
    } else if s.first().symbol == sym {
        0
    } else {
        1 + find_symbol(s.drop_first(), sym)
    }
}

pub proof fn lemma_find_symbol(s: Seq<HoldingView>, sym: Seq<u8>)
    ensures
        0 <= find_symbol(s, sym) <= s.len(),
        forall|j: int| 0 <= j < find_symbol(s, sym) ==> s[j].symbol != sym,
        find_symbol(s, sym) < s.len() ==> s[find_symbol(s, sym)].symbol == sym,
    decreases s.len(),
{
    if s.len() > 0 && s.first().symbol != sym {
        lemma_find_symbol(s.drop_first(), sym);
        assert forall|j: int| 0 <= j < find_symbol(s, sym) implies s[j].symbol != sym by {
            if j >= 1 {
                assert(s.drop_first()[j - 1] == s[j]);
            }
        }
        if find_symbol(s, sym) < s.len() {
            assert(s[find_symbol(s, sym)] == s.drop_first()[find_symbol(s, sym) - 1]);
        }
    }
}

/// `find_symbol` is pinned down by its characteristic properties.
proof fn lemma_find_symbol_unique(s: Seq<HoldingView>, sym: Seq<u8>, k: int)
    requires
        0 <= k <= s.len(),
        forall|j: int| 0 <= j < k ==> s[j].symbol != sym,
        k == s.len() || s[k].symbol == sym,
    ensures
        find_symbol(s, sym) == k,
    decreases s.len(),
{
    if k == 0 {
    } else {
        assert(s[0].symbol != sym);
        lemma_find_symbol_unique(s.drop_first(), sym, k - 1);
    }
}

/// Append a holding to a portfolio's list.
pub fn add_holding(stocks: &mut Vec<Holding>, h: Holding)
    ensures
        final(stocks)@ == old(stocks)@.push(h),
        holdings_view(final(stocks)@) == holdings_view(old(stocks)@).push(h@),
{
    stocks.push(h);
    proof {
        assert(holdings_view(stocks@) =~= holdings_view(old(stocks)@).push(h@));
    }
}

/// The list with the first holding matching `sym` given the new quantity
/// and cost basis; unchanged when no holding matches.
pub open spec fn spec_edit_holdings(s: Seq<HoldingView>, sym: Seq<u8>, quantity: i64, cost_basis: i64) -> Seq<
    HoldingView,
> {
    let i = find_symbol(s, sym);
    if i < s.len() {
        s.update(
            i,
            HoldingView {
                symbol: s[i].symbol,
                display: s[i].display,
                name: s[i].name,
                quantity,
                cost_basis,
            },
        )
    } else {
        s
    }
}

/// Set the quantity and cost basis of the first holding with the given
/// symbol, if any.
pub fn edit_holding(stocks: &mut Vec<Holding>, symbol: &Vec<u8>, quantity: i64, cost_basis: i64)
    ensures
        holdings_view(final(stocks)@) == spec_edit_holdings(
            holdings_view(old(stocks)@),
            symbol@,
            quantity,
            cost_basis,
        ),
{
    let ghost hv = holdings_view(stocks@);
    let n = stocks.len();
    let mut i: usize = 0;
    while i < n
        invariant
            0 <= i <= n,
            n == stocks@.len(),
            stocks == old(stocks),
            hv == holdings_view(stocks@),
            forall|j: int| 0 <= j < i ==> hv[j].symbol != symbol@,
        decreases n - i,
    {
        if eq_bytes(&stocks[i].symbol, symbol) {
            proof {
                assert(hv[i as int].symbol == symbol@);
                lemma_find_symbol_unique(hv, symbol@, i as int);
            }
            let h = stocks.remove(i);
            let edited = Holding {
                symbol: h.symbol,
                display: h.display,
                name: h.name,
                quantity,
                cost_basis,
            };
            stocks.insert(i, edited);
            proof {
                assert(holdings_view(stocks@) =~= spec_edit_holdings(
                    hv,
                    symbol@,
                    quantity,
                    cost_basis,
                ));
            }
            return ;
        }
        i = i + 1;
    }
    proof {
        lemma_find_symbol_unique(hv, symbol@, n as int);
    }
}

/// The list without any holding of the given symbol, order kept.
pub open spec fn spec_delete_holdings(s: Seq<HoldingView>, sym: Seq<u8>) -> Seq<HoldingView> {
    s.filter(|h: HoldingView| h.symbol != sym)
}

/// Remove every holding with the given symbol.
pub fn delete_holding(stocks: &mut Vec<Holding>, symbol: &Vec<u8>)
    ensures
        holdings_view(final(stocks)@) == spec_delete_holdings(holdings_view(old(stocks)@), symbol@),
{
    let ghost hv = holdings_view(stocks@);
    let n = stocks.len();
    let mut out: Vec<Holding> = Vec::new();
    let mut i: usize = 0;
    proof {
        reveal(Seq::filter);
        assert(hv.subrange(0, 0) =~= Seq::<HoldingView>::empty());
        assert(holdings_view(out@) =~= spec_delete_holdings(hv.subrange(0, 0), symbol@));
    }
    while i < n
        invariant
            0 <= i <= n,
            n == stocks@.len(),
            stocks == old(stocks),
            hv == holdings_view(stocks@),
            holdings_view(out@) == spec_delete_holdings(hv.subrange(0, i as int), symbol@),
        decreases n - i,
    {
        let ghost prefix = hv.subrange(0, i as int);
        let ghost prefix1 = hv.subrange(0, i as int + 1);
        proof {
            reveal(Seq::filter);
            assert(prefix1.drop_last() =~= prefix);
            assert(prefix1.last() == hv[i as int]);
        }
        if !eq_bytes(&stocks[i].symbol, symbol) {
            let ghost prev = out@;
            let kept = clone_holding(&stocks[i]);
            out.push(kept);
            proof {
                assert(holdings_view(out@) =~= holdings_view(prev).push(hv[i as int]));
            }
        }
        i = i + 1;
    }
    proof {
        assert(hv.subrange(0, n as int) =~= hv);
    }
    *stocks = out;
}

} // verus!
