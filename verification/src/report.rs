//! The text of a layout report that does not depend on the spectral
//! numbers: the header, bridge suggestions, the bridge, cluster and
//! Fiedler sections, and the integer lines of the overview and packing
//! sections.

use vstd::prelude::*;
use crate::structure::BridgePage;
use crate::text::{decimal, push_decimal};

verus! {

/// Details about a spectral cluster.
#[derive(Debug, Clone)]
pub struct ClusterDetail {
    pub label: String,
    pub count: usize,
    pub pages: Vec<usize>,
}

impl ClusterDetail {
    /// The details of a cluster with this label and these pages.
    pub fn of_cluster(label: &String, pages: &Vec<usize>) -> (d: ClusterDetail)
        ensures
            d.label@ == label@,
            d.count == pages@.len(),
            d.pages@ == pages@,
    {
        let copy = pages.clone();
        assert(copy@ =~= pages@);
        ClusterDetail { label: label.clone(), count: pages.len(), pages: copy }
    }
}

/// `Section <page> ("<title>")`.
pub open spec fn section_ref(b: BridgePage) -> Seq<char> {
    "Section "@ + decimal(b.page as nat) + " (\""@ + b.title@ + "\")"@
}

/// The section references of `bs`, separated by `, `.
pub open spec fn joined_refs(bs: Seq<BridgePage>) -> Seq<char>
    decreases bs.len(),
{
    if bs.len() == 0 {
        Seq::empty()
    } else if bs.len() == 1 {
        section_ref(bs[0])
    } else {
        joined_refs(bs.drop_last()) + ", "@ + section_ref(bs.last())
    }
}

/// The suggestion that the report makes from the bridge pages found.
pub open spec fn suggestion_text(bs: Seq<BridgePage>) -> Seq<char> {
    if bs.len() == 0 {
        "No bridge sections detected; document is well-structured."@
    } else if bs.len() == 1 {
        section_ref(bs[0]) + " bridges "@ + decimal(bs[0].splits_into as nat)
            + " topics — consider splitting here."@
    } else {
        "Multiple bridge sections found: "@ + joined_refs(bs)
            + ". These separate distinct logical clusters."@
    }
}

/// The report line of one bridge page.
pub open spec fn bridge_line_text(b: BridgePage) -> Seq<char> {
    "    - "@ + section_ref(b) + ": degree "@ + decimal(b.degree as nat) + ", splits into "@
        + decimal(b.splits_into as nat) + " components"@
}

/// Page numbers separated by `, `.
pub open spec fn joined_numbers(ps: Seq<usize>) -> Seq<char>
    decreases ps.len(),
{
    if ps.len() == 0 {
        Seq::empty()
    } else if ps.len() == 1 {
        decimal(ps[0] as nat)
    } else {
        joined_numbers(ps.drop_last()) + ", "@ + decimal(ps.last() as nat)
    }
}

/// The page list of a cluster: all pages when there are at most ten,
/// otherwise the count and the first and last page.
pub open spec fn page_list_text(d: ClusterDetail) -> Seq<char> {
    if d.pages@.len() <= 10 {
        "pages "@ + joined_numbers(d.pages@)
    } else {
        decimal(d.count as nat) + " pages ("@ + decimal(d.pages@[0] as nat) + " .. "@ + decimal(
            d.pages@.last() as nat,
        ) + ")"@
    }
}

/// The report line of one cluster.
pub open spec fn cluster_line_text(d: ClusterDetail) -> Seq<char> {
    "  • "@ + d.label@ + ": "@ + decimal(d.count as nat) + " pages ("@ + page_list_text(d) + ")"@
}

fn push_section_ref(out: &mut String, b: &BridgePage)
    ensures
        final(out)@ == old(out)@ + section_ref(*b),
{
    out.append("Section ");
    push_decimal(out, b.page as u128);
    out.append(" (\"");
    out.append(b.title.as_str());
    out.append("\")");
}

/// What the report suggests from the bridge pages found.
pub fn bridge_suggestion(bridges: &Vec<BridgePage>) -> (s: String)
    ensures
        s@ == suggestion_text(bridges@),
{
    let n = bridges.len();
    if n == 0 {
        return String::from_str("No bridge sections detected; document is well-structured.");
    }
    if n == 1 {
        let mut out = String::new();
        push_section_ref(&mut out, &bridges[0]);
        out.append(" bridges ");
        push_decimal(&mut out, bridges[0].splits_into as u128);
        out.append(" topics — consider splitting here.");
        return out;
    }
    let mut out = String::from_str("Multiple bridge sections found: ");
    let ghost head = out@;
    push_section_ref(&mut out, &bridges[0]);
    assert(bridges@.take(1).drop_last() =~= Seq::<BridgePage>::empty());
    assert(joined_refs(bridges@.take(1)) == section_ref(bridges@[0]));
    let mut i: usize = 1;
    while i < n
        invariant
            n == bridges@.len(),
            1 <= i <= n,
            out@ == head + joined_refs(bridges@.take(i as int)),
        decreases n - i,
    {
        out.append(", ");
        push_section_ref(&mut out, &bridges[i]);
        assert(bridges@.take(i + 1).drop_last() =~= bridges@.take(i as int));
        i = i + 1;
    }
    assert(bridges@.take(n as int) =~= bridges@);
    out.append(". These separate distinct logical clusters.");
    out
}

/// The report line of one bridge page.
pub fn bridge_line(b: &BridgePage) -> (s: String)
    ensures
        s@ == bridge_line_text(*b),
{
    let mut out = String::from_str("    - ");
    push_section_ref(&mut out, b);
    out.append(": degree ");
    push_decimal(&mut out, b.degree as u128);
    out.append(", splits into ");
    push_decimal(&mut out, b.splits_into as u128);
    out.append(" components");
    out
}

fn push_page_list(out: &mut String, d: &ClusterDetail)
    ensures
        final(out)@ == old(out)@ + page_list_text(*d),
{
    let n = d.pages.len();
    if n <= 10 {
        out.append("pages ");
        if n > 0 {
            let ghost head = out@;
            push_decimal(out, d.pages[0] as u128);
            assert(d.pages@.take(1).drop_last() =~= Seq::<usize>::empty());
            assert(joined_numbers(d.pages@.take(1)) == decimal(d.pages@[0] as nat));
            let mut i: usize = 1;
            while i < n
                invariant
                    n == d.pages@.len(),
                    1 <= i <= n,
                    out@ == head + joined_numbers(d.pages@.take(i as int)),
                decreases n - i,
            {
                out.append(", ");
                push_decimal(out, d.pages[i] as u128);
                assert(d.pages@.take(i + 1).drop_last() =~= d.pages@.take(i as int));
                i = i + 1;
            }
            assert(d.pages@.take(n as int) =~= d.pages@);
        } else {
            assert(joined_numbers(d.pages@) == Seq::<char>::empty());
        }
    } else {
        push_decimal(out, d.count as u128);
        out.append(" pages (");
        push_decimal(out, d.pages[0] as u128);
        out.append(" .. ");
        push_decimal(out, d.pages[n - 1] as u128);
        out.append(")");
    }
}

/// The report line of one cluster.
pub fn cluster_line(d: &ClusterDetail) -> (s: String)
    ensures
        s@ == cluster_line_text(*d),
{
    let mut out = String::from_str("  • ");
    out.append(d.label.as_str());
    out.append(": ");
    push_decimal(&mut out, d.count as u128);
    out.append(" pages (");
    push_page_list(&mut out, d);
    out.append(")");
    out
}

/// A rule of sixty `=`.
pub open spec fn rule_text() -> Seq<char> {
    Seq::new(60, |i: int| '=')
}

/// The report header: a rule, the title, the page and cross-reference
/// counts, and a rule, each on its own line.
pub open spec fn header_text(title: Seq<char>, pages: nat, refs: nat) -> Seq<char> {
    rule_text() + "\n  "@ + title + "\n  "@ + decimal(pages) + " pages, "@ + decimal(refs)
        + " cross-refs\n"@ + rule_text() + "\n"@
}

/// `s` after a count other than one.
pub open spec fn plural_text(n: nat) -> Seq<char> {
    if n == 1 {
        Seq::empty()
    } else {
        "s"@
    }
}

/// The lines of the bridge pages, each ending in a newline.
pub open spec fn bridge_lines_text(bs: Seq<BridgePage>) -> Seq<char>
    decreases bs.len(),
{
    if bs.len() == 0 {
        Seq::empty()
    } else {
        bridge_lines_text(bs.drop_last()) + bridge_line_text(bs.last()) + "\n"@
    }
}

/// The bridge section: its heading, the count, one line per bridge page
/// and the suggestion.
pub open spec fn bridge_section_text(total: nat, bs: Seq<BridgePage>, suggestion: Seq<char>) -> Seq<
    char,
> {
    "\n── Bridge Sections ──\n  • "@ + decimal(total) + " bridge section"@ + plural_text(total)
        + " found\n"@ + bridge_lines_text(bs) + "  ▶ "@ + suggestion + "\n"@
}

/// The lines of the clusters, each ending in a newline.
pub open spec fn cluster_lines_text(cs: Seq<ClusterDetail>) -> Seq<char>
    decreases cs.len(),
{
    if cs.len() == 0 {
        Seq::empty()
    } else {
        cluster_lines_text(cs.drop_last()) + cluster_line_text(cs.last()) + "\n"@
    }
}

/// The cluster section: its heading, one line per cluster and the
/// explanation.
pub open spec fn cluster_section_text(cs: Seq<ClusterDetail>, explanation: Seq<char>) -> Seq<char> {
    "\n── Spectral Clusters ──\n"@ + cluster_lines_text(cs) + "  "@ + explanation + "\n"@
}

/// The Fiedler section: its heading, the value summary and the
/// interpretation.
pub open spec fn fiedler_section_text(values: Seq<char>, interpretation: Seq<char>) -> Seq<char> {
    "\n── Fiedler Vector ──\n  • "@ + values + "\n  • "@ + interpretation + "\n"@
}

fn push_rule(out: &mut String)
    ensures
        final(out)@ == old(out)@ + rule_text(),
{
    let ghost head = out@;
    let mut i: usize = 0;
    while i < 60
        invariant
            i <= 60,
            out@ == head + Seq::new(i as nat, |j: int| '='),
        decreases 60 - i,
    {
        out.append("=");
        proof {
            reveal_strlit("=");
        }
        assert(Seq::new(i as nat, |j: int| '=') + "="@ =~= Seq::new((i + 1) as nat, |j: int| '='));
        i = i + 1;
    }
}

/// The report header for a document with this title and these counts.
pub fn report_header(title: &str, pages: usize, refs: usize) -> (s: String)
    ensures
        s@ == header_text(title@, pages as nat, refs as nat),
{
    let mut out = String::new();
    push_rule(&mut out);
    out.append("\n  ");
    out.append(title);
    out.append("\n  ");
    push_decimal(&mut out, pages as u128);
    out.append(" pages, ");
    push_decimal(&mut out, refs as u128);
    out.append(" cross-refs\n");
    push_rule(&mut out);
    out.append("\n");
    out
}

/// The bridge section of a report.
pub fn bridge_section(total: usize, bridges: &Vec<BridgePage>, suggestion: &str) -> (s: String)
    ensures
        s@ == bridge_section_text(total as nat, bridges@, suggestion@),
{
    let mut out = String::from_str("\n── Bridge Sections ──\n  • ");
    push_decimal(&mut out, total as u128);
    out.append(" bridge section");
    if total != 1 {
        out.append("s");
    }
    proof {
        reveal_strlit("s");
    }
    assert(plural_text(total as nat) == (if total == 1 { Seq::<char>::empty() } else { "s"@ }));
    out.append(" found\n");
    let ghost head = out@;
    let n = bridges.len();
    let mut i: usize = 0;
    assert(bridges@.take(0) =~= Seq::<BridgePage>::empty());
    while i < n
        invariant
            n == bridges@.len(),
            i <= n,
            out@ == head + bridge_lines_text(bridges@.take(i as int)),
        decreases n - i,
    {
        let line = bridge_line(&bridges[i]);
        out.append(line.as_str());
        out.append("\n");
        assert(bridges@.take(i + 1).drop_last() =~= bridges@.take(i as int));
        i = i + 1;
    }
    assert(bridges@.take(n as int) =~= bridges@);
    out.append("  ▶ ");
    out.append(suggestion);
    out.append("\n");
    out
}

/// The cluster section of a report.
pub fn cluster_section(clusters: &Vec<ClusterDetail>, explanation: &str) -> (s: String)
    ensures
        s@ == cluster_section_text(clusters@, explanation@),
{
    let mut out = String::from_str("\n── Spectral Clusters ──\n");
    let ghost head = out@;
    let n = clusters.len();
    let mut i: usize = 0;
    assert(clusters@.take(0) =~= Seq::<ClusterDetail>::empty());
    while i < n
        invariant
            n == clusters@.len(),
            i <= n,
            out@ == head + cluster_lines_text(clusters@.take(i as int)),
        decreases n - i,
    {
        let line = cluster_line(&clusters[i]);
        out.append(line.as_str());
        out.append("\n");
        assert(clusters@.take(i + 1).drop_last() =~= clusters@.take(i as int));
        i = i + 1;
    }
    assert(clusters@.take(n as int) =~= clusters@);
    out.append("  ");
    out.append(explanation);
    out.append("\n");
    out
}

/// The Fiedler section of a report.
pub fn fiedler_section(values: &str, interpretation: &str) -> (s: String)
    ensures
        s@ == fiedler_section_text(values@, interpretation@),
{
    let mut out = String::from_str("\n── Fiedler Vector ──\n  • ");
    out.append(values);
    out.append("\n  • ");
    out.append(interpretation);
    out.append("\n");
    out
}

/// The start of the spectral overview: its heading and the cluster count.
pub open spec fn overview_head_text(clusters: nat) -> Seq<char> {
    "\n── Spectral Overview ──\n  • "@ + decimal(clusters) + " spectral cluster"@ + plural_text(
        clusters,
    ) + "\n"@
}

/// Whether the spectral overview finds a clear structural split.
pub open spec fn split_line_text(clear: bool) -> Seq<char> {
    "  • Clear structural split: "@ + (if clear {
        "YES"@
    } else {
        "no"@
    }) + "\n"@
}

/// One grid of the packing analysis: its columns, rows and cells.
pub open spec fn grid_line_text(kind: Seq<char>, cols: nat, rows: nat, cells: nat) -> Seq<char> {
    "  • "@ + kind + " grid: "@ + decimal(cols) + " cols x "@ + decimal(rows) + " rows = "@
        + decimal(cells) + " cells\n"@
}

/// The start of the packing analysis: its heading and the hexagonal and
/// square grids.
pub open spec fn packing_head_text(
    hex: (nat, nat, nat),
    square: (nat, nat, nat),
) -> Seq<char> {
    "\n── Packing Analysis ──\n"@ + grid_line_text("Hex"@, hex.0, hex.1, hex.2) + grid_line_text(
        "Square"@,
        square.0,
        square.1,
        square.2,
    )
}

/// The heading and cluster count of the spectral overview.
pub fn overview_head(clusters: usize) -> (s: String)
    ensures
        s@ == overview_head_text(clusters as nat),
{
    let mut out = String::from_str("\n── Spectral Overview ──\n  • ");
    push_decimal(&mut out, clusters as u128);
    out.append(" spectral cluster");
    if clusters != 1 {
        out.append("s");
    }
    proof {
        reveal_strlit("s");
    }
    assert(plural_text(clusters as nat) == (if clusters == 1 { Seq::<char>::empty() } else { "s"@ }));
    out.append("\n");
    out
}

/// The structural-split line of the spectral overview.
pub fn split_line(clear: bool) -> (s: String)
    ensures
        s@ == split_line_text(clear),
{
    let mut out = String::from_str("  • Clear structural split: ");
    if clear {
        out.append("YES");
    } else {
        out.append("no");
    }
    out.append("\n");
    out
}

fn push_grid_line(out: &mut String, kind: &str, cols: usize, rows: usize, cells: usize)
    ensures
        final(out)@ == old(out)@ + grid_line_text(kind@, cols as nat, rows as nat, cells as nat),
{
    out.append("  • ");
    out.append(kind);
    out.append(" grid: ");
    push_decimal(out, cols as u128);
    out.append(" cols x ");
    push_decimal(out, rows as u128);
    out.append(" rows = ");
    push_decimal(out, cells as u128);
    out.append(" cells\n");
}

/// The heading and grid lines of the packing analysis.
pub fn packing_head(
    hex_columns: usize,
    hex_rows: usize,
    hex_cells: usize,
    square_columns: usize,
    square_rows: usize,
    square_cells: usize,
) -> (s: String)
    ensures
        s@ == packing_head_text(
            (hex_columns as nat, hex_rows as nat, hex_cells as nat),
            (square_columns as nat, square_rows as nat, square_cells as nat),
        ),
{
    let mut out = String::from_str("\n── Packing Analysis ──\n");
    push_grid_line(&mut out, "Hex", hex_columns, hex_rows, hex_cells);
    push_grid_line(&mut out, "Square", square_columns, square_rows, square_cells);
    out
}

} // verus!
