use vstd::prelude::*;
use crate::model::{
    copy_groups, groups_view, row_view, rows_view, Button, ButtonView, Document, Documentation,
    ItemRow, Listing, Page, Paragraph, TextPart, TextStyle,
};
use crate::nav::{add_additional_autopage, add_additional_pager, nav_row, navigation_row, with_pager, with_row};
use crate::render::{
    list_text, shown, shows, visible, lemma_visible_concat,
    balanced, extend_tokens, lemma_balanced_concat, markup, open_after, render_code, render_list,
    render_markup, render_run, well_marked, Token,
};
use crate::section::{page_text, text_layout, unit_texts, write_section};
use crate::text::{collapse_whitespace, collapsed, dec, decimal, string_of};

verus! {

/// The plain text of a run so far, with how many styles are open and, when
/// inside a code span, how deep the span began (zero outside one).
pub open spec fn plain_state(run: Seq<TextPart>) -> (Seq<char>, nat, nat)
    decreases run.len(),
{
    if run.len() == 0 {
        (Seq::empty(), 0, 0)
    } else {
        let (text, depth, code) = plain_state(run.drop_last());
        match run.last() {
            TextPart::Text(t) => (text + if code > 0 { t@ } else { collapsed(t@) }, depth, code),
            TextPart::BeginStyle(s) => (text, depth + 1, if s is Monospaced { depth + 1 } else { code }),
            TextPart::EndStyle => if depth == 0 {
                (text, depth, code)
            } else {
                (text, (depth - 1) as nat, if code == depth { 0 } else { code })
            },
            _ => (text, depth, code),
        }
    }
}

/// The run's text without markup, images or tables; outside code, runs of
/// whitespace fold to one space.
pub open spec fn plain(run: Seq<TextPart>) -> Seq<char> {
    plain_state(run).0
}

pub fn text_parts_to_plain(parts: &Vec<TextPart>) -> (r: String)
    ensures
        r@ == plain(parts@),
{
    let mut buffer = String::new();
    let mut depth: usize = 0;
    let mut in_code: usize = 0;
    let mut i: usize = 0;
    while i < parts.len()
        invariant
            i <= parts@.len(),
            depth <= i,
            (buffer@, depth as nat, in_code as nat) == plain_state(parts@.subrange(0, i as int)),
        decreases parts@.len() - i,
    {
        assert(parts@.subrange(0, i + 1).drop_last() =~= parts@.subrange(0, i as int));
        match &parts[i] {
            TextPart::Text(t) => {
                if in_code > 0 {
                    buffer.append(t.as_str());
                } else {
                    let folded = collapse_whitespace(t.as_str());
                    buffer.append(folded.as_str());
                }
            },
            TextPart::Image(_) | TextPart::Table => {},
            TextPart::BeginStyle(style) => {
                depth = depth + 1;
                if let TextStyle::Monospaced = style {
                    in_code = depth;
                }
            },
            TextPart::EndStyle => {
                if depth > 0 {
                    if in_code == depth {
                        in_code = 0;
                    }
                    depth = depth - 1;
                }
            },
        }
        i = i + 1;
    }
    assert(parts@.subrange(0, i as int) =~= parts@);
    buffer
}

/// The visible text of a run rendered on its own.
pub open spec fn run_text(run: Seq<TextPart>) -> Seq<char> {
    shown((false, 0), run)
}

/// The visible text of a paragraph.
pub open spec fn paragraph_text(p: Paragraph) -> Seq<char> {
    match p {
        Paragraph::Text(run) => run_text(run@),
        Paragraph::List(items) => list_text(items@),
        Paragraph::Code(run) => shown((true, 0), run@),
    }
}

/// The visible text of a listing's row: the name, a line break, the summary.
pub open spec fn row_text(r: ItemRow) -> Seq<char> {
    run_text(r.name@) + seq!['\n'] + run_text(r.summary@)
}

/// Texts `start..start+n` are the pages of a section with this title and
/// these units, laid out as pagination lays them out.
#[verifier::opaque]
pub open spec fn section_shown(
    texts: Seq<Seq<char>>,
    start: int,
    n: int,
    title: Seq<char>,
    units: Seq<Seq<char>>,
) -> bool {
    exists|plan: Seq<(usize, usize)>|
        plan.len() == n && text_layout(title, units, plan) && forall|j: int|
            0 <= j < n ==> shows(
                #[trigger] texts[start + j],
                page_text(title, units, plan[j].0 as int, plan[j].1 as int),
            )
}

pub proof fn lemma_section_shown_moved(
    t1: Seq<Seq<char>>,
    s1: int,
    t2: Seq<Seq<char>>,
    s2: int,
    n: int,
    title: Seq<char>,
    units: Seq<Seq<char>>,
)
    requires
        section_shown(t1, s1, n, title, units),
        forall|j: int| 0 <= j < n ==> #[trigger] t2[s2 + j] == t1[s1 + j],
    ensures
        section_shown(t2, s2, n, title, units),
{
    reveal(section_shown);
    let plan = choose|plan: Seq<(usize, usize)>|
        plan.len() == n && text_layout(title, units, plan) && forall|j: int|
            0 <= j < n ==> shows(
                #[trigger] t1[s1 + j],
                page_text(title, units, plan[j].0 as int, plan[j].1 as int),
            );
    assert forall|j: int| 0 <= j < n implies shows(
        #[trigger] t2[s2 + j],
        page_text(title, units, plan[j].0 as int, plan[j].1 as int),
    ) by {
        assert(t2[s2 + j] == t1[s1 + j]);
    }
}

pub open spec fn string_views(v: Seq<String>) -> Seq<Seq<char>> {
    v.map_values(|s: String| s@)
}

fn render_paragraph(p: &Paragraph, base: &str) -> (r: Vec<Token>)
    ensures
        balanced(r@),
        visible(r@) == paragraph_text(*p),
{
    match p {
        Paragraph::Text(run) => render_run(run, base),
        Paragraph::List(items) => render_list(items, base),
        Paragraph::Code(run) => render_code(run, base),
    }
}

fn render_item_row(row: &ItemRow, base: &str) -> (r: Vec<Token>)
    ensures
        balanced(r@),
        visible(r@) == row_text(*row),
{
    let mut out = render_run(&row.name, base);
    let ghost pre = out@;
    out.push(Token::Break);
    assert(out@ == pre + seq![Token::Break]);
    assert(balanced(seq![Token::Break])) by {
        reveal_with_fuel(open_after, 2);
        assert(seq![Token::Break].drop_last() =~= Seq::<Token>::empty());
    }
    proof {
        lemma_balanced_concat(pre, seq![Token::Break]);
    }
    let summary = render_run(&row.summary, base);
    proof {
        lemma_balanced_concat(out@, summary@);
        lemma_visible_concat(pre, seq![Token::Break]);
        lemma_visible_concat(out@, summary@);
        reveal_with_fuel(visible, 2);
        assert(seq![Token::Break].drop_last() =~= Seq::<Token>::empty());
        assert(visible(seq![Token::Break]) =~= seq!['\n']);
    }
    extend_tokens(&mut out, summary);
    out
}

/// Renders a section and appends its pages' markup to `texts`.
fn append_section_texts(title: &Vec<Token>, units: &Vec<Vec<Token>>, texts: &mut Vec<String>)
    requires
        balanced(title@),
        forall|j: int| 0 <= j < units@.len() ==> balanced(#[trigger] units@[j]@),
        forall|k: int| 0 <= k < old(texts)@.len() ==> well_marked(#[trigger] old(texts)@[k]@),
    ensures
        forall|k: int| 0 <= k < final(texts)@.len() ==> well_marked(#[trigger] final(texts)@[k]@),
        final(texts)@.len() <= old(texts)@.len() + units@.len(),
        final(texts)@.len() >= old(texts)@.len(),
        units@.len() > 0 ==> final(texts)@.len() > old(texts)@.len(),
        forall|k: int| 0 <= k < old(texts)@.len() ==> final(texts)@[k] == old(texts)@[k],
        section_shown(
            string_views(final(texts)@),
            old(texts)@.len() as int,
            final(texts)@.len() - old(texts)@.len(),
            visible(title@),
            unit_texts(units@),
        ),
{
    let (plan, section) = write_section(title, units);
    proof {
        crate::paging::lemma_plan_len(units@.len() as int, plan@);
    }
    let ghost start = texts@;
    let mut i: usize = 0;
    while i < section.len()
        invariant
            i <= section@.len(),
            texts@.len() == start.len() + i,
            forall|k: int| 0 <= k < start.len() ==> texts@[k] == start[k],
            forall|k: int| 0 <= k < start.len() ==> well_marked(#[trigger] start[k]@),
            forall|k: int| 0 <= k < section@.len() ==> well_marked(#[trigger] section@[k]@),
            forall|k: int| 0 <= k < i ==> texts@[start.len() + k] == section@[k],
        decreases section@.len() - i,
    {
        texts.push(section[i].clone());
        i = i + 1;
    }
    proof {
        reveal(section_shown);
        let tv = string_views(texts@);
        assert forall|j: int| 0 <= j < section@.len() implies shows(
            #[trigger] tv[start.len() + j],
            page_text(visible(title@), unit_texts(units@), plan@[j].0 as int, plan@[j].1 as int),
        ) by {
            assert(texts@[start.len() + j] == section@[j]);
        }
        assert(section_shown(tv, start.len() as int, section@.len() as int, visible(title@), unit_texts(units@)));
    }
    assert forall|k: int| 0 <= k < texts@.len() implies well_marked(#[trigger] texts@[k]@) by {
        if k >= start.len() {
            assert(texts@[start.len() + (k - start.len())] == section@[k - start.len()]);
            assert(well_marked(section@[k - start.len()]@));
        } else {
            assert(texts@[k] == start[k]);
            assert(well_marked(start[k]@));
        }
    }
}

pub open spec fn keyboard_of(p: Page) -> Option<Seq<ButtonView>> {
    match p.page_keyboard {
        Some(row) => Some(row_view(row)),
        None => None,
    }
}

/// Pages `b..b+n` are one section: each carries its place in the section,
/// and a section of one page carries no navigation row.
#[verifier::opaque]
pub open spec fn navigated(pages: Seq<Page>, b: int, n: int) -> bool {
    forall|i: int|
        b <= i < b + n ==> keyboard_of(#[trigger] pages[i]) == if n > 1 {
            Some(nav_row(b as nat, (i - b) as nat, n as nat))
        } else {
            None
        }
}

/// The single group that a listing's pages carry: a way back to the first page.
pub open spec fn back_to_main() -> Seq<Seq<Seq<ButtonView>>> {
    seq![seq![seq![(seq!['\u{BB}', ' ', 'M', 'a', 'i', 'n'], seq!['0'])]]]
}

/// Rows added one by one into groups of at most three.
pub open spec fn grouped<T>(rows: Seq<T>) -> Seq<Seq<T>>
    decreases rows.len(),
{
    if rows.len() == 0 {
        Seq::empty()
    } else {
        with_row(grouped(rows.drop_last()), rows.last())
    }
}

/// Grouping: the groups cut the rows into threes, in order.
pub proof fn lemma_grouped_batches<T>(rows: Seq<T>)
    ensures
        crate::nav::batched(rows, grouped(rows)),
    decreases rows.len(),
{
    if rows.len() == 0 {
    } else {
        lemma_grouped_batches(rows.drop_last());
        crate::nav::lemma_with_row_batches(rows.drop_last(), grouped(rows.drop_last()), rows.last());
        assert(rows.drop_last().push(rows.last()) =~= rows);
    }
}

/// One link row per listing: its heading as plain text, jumping to its first page.
pub open spec fn listing_links(items: Seq<Listing>, bounds: Seq<int>) -> Seq<Seq<ButtonView>> {
    Seq::new(
        items.len(),
        |k: int| seq![(plain(items[k].heading@), dec(bounds[k + 1] as nat))],
    )
}

pub open spec fn description_units(ds: Seq<crate::model::Description>) -> int
    decreases ds.len(),
{
    if ds.len() == 0 {
        0
    } else {
        description_units(ds.drop_last()) + ds.last().contents@.len()
    }
}

pub open spec fn listing_units(ls: Seq<Listing>) -> int
    decreases ls.len(),
{
    if ls.len() == 0 {
        0
    } else {
        listing_units(ls.drop_last()) + ls.last().rows@.len()
    }
}

/// How the pages of a document are laid out: `bounds` are where its
/// sections start, the main section first and then one per listing.
pub open spec fn laid_out(pages: Seq<Page>, doc: Document, bounds: Seq<int>) -> bool {
    &&& bounds.len() == doc.items@.len() + 2
    &&& bounds[0] == 0
    &&& bounds[1] >= 1
    &&& bounds.last() == pages.len()
    &&& forall|s: int| 0 <= s < bounds.len() - 1 ==> #[trigger] bounds[s] <= bounds[s + 1]
    &&& forall|s: int|
        1 <= s < bounds.len() - 1 ==> navigated(pages, #[trigger] bounds[s], bounds[s + 1] - bounds[s])
    &&& forall|s: int|
        1 <= s < bounds.len() - 1 ==> (bounds[s + 1] - bounds[s] == 0 <==> (#[trigger] doc.items@[s - 1]).rows@.len() == 0)
    &&& forall|i: int|
        0 <= i < bounds[1] ==> groups_view((#[trigger] pages[i]).additionals) == with_pager(
            grouped(listing_links(doc.items@, bounds)),
        )
    &&& forall|i: int|
        bounds[1] <= i < pages.len() ==> groups_view((#[trigger] pages[i]).additionals)
            == back_to_main()
    &&& main_laid(pages, doc, bounds[1])
    &&& listings_shown(page_texts(pages), doc.items@, bounds)
}

fn back_to_main_groups() -> (r: Vec<Vec<Vec<Button>>>)
    ensures
        groups_view(r) == back_to_main(),
{
    let label: Vec<char> = vec!['\u{BB}', ' ', 'M', 'a', 'i', 'n'];
    let payload: Vec<char> = vec!['0'];
    let b = Button::new(string_of(&label), string_of(&payload));
    assert(label@ =~= seq!['\u{BB}', ' ', 'M', 'a', 'i', 'n']);
    assert(payload@ =~= seq!['0']);
    let mut row: Vec<Button> = Vec::new();
    row.push(b);
    assert(row_view(row) =~= seq![(seq!['\u{BB}', ' ', 'M', 'a', 'i', 'n'], seq!['0'])]);
    let mut group: Vec<Vec<Button>> = Vec::new();
    group.push(row);
    assert(rows_view(group) =~= seq![seq![(seq!['\u{BB}', ' ', 'M', 'a', 'i', 'n'], seq!['0'])]]);
    let mut groups: Vec<Vec<Vec<Button>>> = Vec::new();
    groups.push(group);
    assert(groups_view(groups) =~= back_to_main());
    groups
}

fn heading_or_title<'a>(title: &'a Vec<TextPart>, heading: &'a Option<Vec<TextPart>>) -> (r: &'a Vec<TextPart>)
    ensures
        r == match heading {
            Some(h) => h,
            None => title,
        },
{
    match heading {
        Some(h) => h,
        None => title,
    }
}

/// The visible text of the heading of description block `k`.
pub open spec fn heading_text(doc: Document, k: int) -> Seq<char> {
    match doc.description@[k].heading {
        Some(h) => run_text(h@),
        None => run_text(doc.title@),
    }
}

pub open spec fn contents_text(d: crate::model::Description) -> Seq<Seq<char>> {
    d.contents@.map_values(|p: Paragraph| paragraph_text(p))
}

/// The declaration as the one unit of the first page, if there is one.
pub open spec fn declaration_units(doc: Document) -> Seq<Seq<char>> {
    match doc.declaration {
        Some(d) => seq![run_text(d@)],
        None => Seq::empty(),
    }
}

/// `mb` are where the main section's parts start: after the declaration's
/// page, each block of description is a section under its heading. When all
/// are empty the main section is one page with the title.
pub open spec fn main_bounds(texts: Seq<Seq<char>>, doc: Document, m: int, mb: Seq<int>) -> bool {
    &&& mb.len() == doc.description@.len() + 1
    &&& 0 <= mb[0]
    &&& section_shown(texts, 0, mb[0], run_text(doc.title@), declaration_units(doc))
    &&& forall|k: int| 0 <= k < doc.description@.len() ==> #[trigger] mb[k] <= mb[k + 1]
    &&& forall|k: int|
        0 <= k < doc.description@.len() ==> section_shown(
            texts,
            #[trigger] mb[k],
            mb[k + 1] - mb[k],
            heading_text(doc, k),
            contents_text(doc.description@[k]),
        )
    &&& mb.last() == 0 ==> m == 1 && shows(texts[0], run_text(doc.title@))
    &&& mb.last() > 0 ==> m == mb.last()
}

proof fn lemma_mono_le(mb: Seq<int>, i: int, j: int)
    requires
        0 <= i <= j < mb.len(),
        forall|k: int| 0 <= k < mb.len() - 1 ==> #[trigger] mb[k] <= mb[k + 1],
    ensures
        mb[i] <= mb[j],
    decreases j - i,
{
    if i < j {
        lemma_mono_le(mb, i, j - 1);
        assert(mb[j - 1] <= mb[j]);
    }
}

proof fn lemma_main_bounds_moved(t1: Seq<Seq<char>>, t2: Seq<Seq<char>>, doc: Document, m: int, mb: Seq<int>)
    requires
        main_bounds(t1, doc, m, mb),
        m <= t1.len(),
        forall|j: int| 0 <= j < m ==> #[trigger] t2[j] == t1[j],
        mb.last() <= m,
    ensures
        main_bounds(t2, doc, m, mb),
{
    let n = doc.description@.len() as int;
    assert forall|k: int| 0 <= k < mb.len() - 1 implies #[trigger] mb[k] <= mb[k + 1] by {
        assert(mb[k] <= mb[k + 1]);
    }
    if mb[0] > 0 {
        lemma_mono_le(mb, 0, n);
    }
    lemma_section_shown_moved(t1, 0, t2, 0, mb[0], run_text(doc.title@), declaration_units(doc));
    assert forall|k: int| 0 <= k < n implies section_shown(
        t2,
        #[trigger] mb[k],
        mb[k + 1] - mb[k],
        heading_text(doc, k),
        contents_text(doc.description@[k]),
    ) by {
        lemma_mono_le(mb, k + 1, n);
        assert forall|j: int| 0 <= j < mb[k + 1] - mb[k] implies #[trigger] t2[mb[k] + j] == t1[mb[k] + j] by {
            lemma_mono_le(mb, 0, k);
            assert(t2[mb[k] + j] == t1[mb[k] + j]);
        }
        lemma_section_shown_moved(t1, mb[k], t2, mb[k], mb[k + 1] - mb[k], heading_text(doc, k), contents_text(doc.description@[k]));
    }
    if mb.last() == 0 {
        assert(t2[0] == t1[0]);
    }
}

proof fn lemma_no_section(texts: Seq<Seq<char>>, start: int, title: Seq<char>)
    ensures
        section_shown(texts, start, 0, title, Seq::empty()),
{
    reveal(section_shown);
    let plan = Seq::<(usize, usize)>::empty();
    assert(text_layout(title, Seq::empty(), plan));
}

/// The main section's parts so far: the declaration's page and the first
/// `k` blocks of description.
#[verifier::opaque]
pub open spec fn main_prefix(texts: Seq<Seq<char>>, doc: Document, k: int, mb: Seq<int>) -> bool {
    &&& mb.len() == k + 1
    &&& 0 <= mb[0]
    &&& mb.last() == texts.len()
    &&& section_shown(texts, 0, mb[0], run_text(doc.title@), declaration_units(doc))
    &&& forall|j: int| 0 <= j < k ==> #[trigger] mb[j] <= mb[j + 1]
    &&& forall|j: int|
        0 <= j < k ==> section_shown(
            texts,
            #[trigger] mb[j],
            mb[j + 1] - mb[j],
            heading_text(doc, j),
            contents_text(doc.description@[j]),
        )
}

proof fn lemma_views_prefix(before: Seq<String>, after: Seq<String>)
    requires
        before.len() <= after.len(),
        forall|k: int| 0 <= k < before.len() ==> after[k] == before[k],
    ensures
        forall|k: int| 0 <= k < before.len() ==> #[trigger] string_views(after)[k] == string_views(before)[k],
{
}

proof fn lemma_main_step(before: Seq<Seq<char>>, after: Seq<Seq<char>>, doc: Document, k: int, mb: Seq<int>)
    requires
        0 <= k < doc.description@.len(),
        main_prefix(before, doc, k, mb),
        before.len() <= after.len(),
        forall|j: int| 0 <= j < before.len() ==> #[trigger] after[j] == before[j],
        section_shown(after, before.len() as int, after.len() - before.len(), heading_text(doc, k), contents_text(doc.description@[k])),
    ensures
        main_prefix(after, doc, k + 1, mb.push(after.len() as int)),
{
    reveal(main_prefix);
    let nb = mb.push(after.len() as int);
    lemma_mono_le(mb, 0, k);
    lemma_section_shown_moved(before, 0, after, 0, mb[0], run_text(doc.title@), declaration_units(doc));
    assert forall|j: int| 0 <= j < k + 1 implies section_shown(
        after,
        #[trigger] nb[j],
        nb[j + 1] - nb[j],
        heading_text(doc, j),
        contents_text(doc.description@[j]),
    ) by {
        if j < k {
            assert(nb[j] == mb[j] && nb[j + 1] == mb[j + 1]);
            lemma_mono_le(mb, j + 1, k);
            lemma_mono_le(mb, 0, j);
            assert forall|i: int| 0 <= i < mb[j + 1] - mb[j] implies #[trigger] after[mb[j] + i] == before[mb[j] + i] by {}
            lemma_section_shown_moved(before, mb[j], after, mb[j], mb[j + 1] - mb[j], heading_text(doc, j), contents_text(doc.description@[j]));
        }
    }
    assert forall|j: int| 0 <= j < k + 1 implies #[trigger] nb[j] <= nb[j + 1] by {
        if j < k {
            assert(nb[j] == mb[j] && nb[j + 1] == mb[j + 1]);
        }
    }
}

proof fn lemma_main_finish(before: Seq<Seq<char>>, after: Seq<Seq<char>>, doc: Document, mb: Seq<int>, m: int)
    requires
        main_prefix(before, doc, doc.description@.len() as int, mb),
        forall|j: int| 0 <= j < before.len() ==> #[trigger] after[j] == before[j],
        before.len() <= after.len(),
        before.len() == 0 ==> m == 1 && shows(after[0], run_text(doc.title@)),
        before.len() > 0 ==> m == before.len() && after.len() == before.len(),
    ensures
        main_bounds(after, doc, m, mb),
{
    reveal(main_prefix);
    let n = doc.description@.len() as int;
    lemma_mono_le(mb, 0, n);
    lemma_section_shown_moved(before, 0, after, 0, mb[0], run_text(doc.title@), declaration_units(doc));
    assert forall|j: int| 0 <= j < n implies section_shown(
        after,
        #[trigger] mb[j],
        mb[j + 1] - mb[j],
        heading_text(doc, j),
        contents_text(doc.description@[j]),
    ) by {
        lemma_mono_le(mb, j + 1, n);
        lemma_mono_le(mb, 0, j);
        assert forall|i: int| 0 <= i < mb[j + 1] - mb[j] implies #[trigger] after[mb[j] + i] == before[mb[j] + i] by {}
        lemma_section_shown_moved(before, mb[j], after, mb[j], mb[j + 1] - mb[j], heading_text(doc, j), contents_text(doc.description@[j]));
    }
    assert(main_bounds(after, doc, m, mb));
}

/// The markup of the main section's pages: the declaration under the title,
/// then each block of description under its heading; the title alone when
/// there is nothing else.
fn main_texts(document: &Document, base: &str) -> (r: (Vec<String>, Vec<usize>))
    ensures
        1 <= r.0@.len() <= 1 + description_units(document.description@),
        forall|k: int| 0 <= k < r.0@.len() ==> well_marked(#[trigger] r.0@[k]@),
        main_bounds(string_views(r.0@), *document, r.0@.len() as int, ints(r.1@)),
{
    let title = render_run(&document.title, base);
    let mut texts: Vec<String> = Vec::new();
    match &document.declaration {
        Some(decl) => {
            let mut units: Vec<Vec<Token>> = Vec::new();
            units.push(render_run(decl, base));
            assert(unit_texts(units@) =~= declaration_units(*document));
            append_section_texts(&title, &units, &mut texts);
        },
        None => {
            proof {
                lemma_no_section(string_views(texts@), 0, run_text(document.title@));
                assert(declaration_units(*document) =~= Seq::<Seq<char>>::empty());
            }
        },
    }
    let ghost first = texts@.len();
    let ghost mut mb: Seq<int> = seq![first as int];
    let mut starts: Vec<usize> = Vec::new();
    starts.push(texts.len());
    proof {
        reveal(main_prefix);
        assert(ints(starts@) =~= mb);
    }
    let mut k: usize = 0;
    while k < document.description.len()
        invariant
            k <= document.description@.len(),
            first <= 1,
            visible(title@) == run_text(document.title@),
            balanced(title@),
            texts@.len() <= first + description_units(document.description@.subrange(0, k as int)),
            forall|j: int| 0 <= j < texts@.len() ==> well_marked(#[trigger] texts@[j]@),
            main_prefix(string_views(texts@), *document, k as int, mb),
            ints(starts@) == mb,
        decreases document.description@.len() - k,
    {
        let description = &document.description[k];
        let heading = render_run(heading_or_title(&document.title, &description.heading), base);
        let mut units: Vec<Vec<Token>> = Vec::new();
        let mut p: usize = 0;
        while p < description.contents.len()
            invariant
                p <= description.contents@.len(),
                units@.len() == p,
                forall|j: int| 0 <= j < units@.len() ==> balanced(#[trigger] units@[j]@),
                forall|j: int| 0 <= j < units@.len() ==> #[trigger] visible(units@[j]@)
                    == paragraph_text(description.contents@[j]),
            decreases description.contents@.len() - p,
        {
            units.push(render_paragraph(&description.contents[p], base));
            p = p + 1;
        }
        assert(unit_texts(units@) =~= contents_text(*description));
        let ghost before = texts@;
        append_section_texts(&heading, &units, &mut texts);
        proof {
            assert(heading_text(*document, k as int) == visible(heading@));
            lemma_views_prefix(before, texts@);
            lemma_main_step(string_views(before), string_views(texts@), *document, k as int, mb);
            mb = mb.push(texts@.len() as int);
        }
        let ghost s0 = starts@;
        starts.push(texts.len());
        assert(ints(starts@) =~= ints(s0).push(texts@.len() as int));
        assert(document.description@.subrange(0, k + 1).drop_last() =~= document.description@.subrange(0, k as int));
        k = k + 1;
    }
    assert(document.description@.subrange(0, k as int) =~= document.description@);
    if texts.len() == 0 {
        let ghost before = texts@;
        let text = render_markup(&title);
        assert(well_marked(text@)) by {
            assert(balanced(title@) && markup(title@) == text@);
        }
        texts.push(text);
        proof {
            let after = string_views(texts@);
            assert(shows(after[0], run_text(document.title@))) by {
                assert(balanced(title@) && markup(title@) == after[0] && visible(title@) == run_text(document.title@));
            }
            lemma_views_prefix(before, texts@);
            lemma_main_finish(string_views(before), after, *document, mb, 1);
        }
    } else {
        proof {
            lemma_main_finish(string_views(texts@), string_views(texts@), *document, mb, texts@.len() as int);
        }
    }
    proof {
        lemma_units_nonneg(document.description@);
    }
    (texts, starts)
}

pub open spec fn ints(v: Seq<usize>) -> Seq<int> {
    v.map_values(|x: usize| x as int)
}

proof fn lemma_units_nonneg(ds: Seq<crate::model::Description>)
    ensures
        description_units(ds) >= 0,
    decreases ds.len(),
{
    if ds.len() > 0 {
        lemma_units_nonneg(ds.drop_last());
    }
}

proof fn lemma_listing_units_nonneg(ls: Seq<Listing>)
    ensures
        listing_units(ls) >= 0,
    decreases ls.len(),
{
    if ls.len() > 0 {
        lemma_listing_units_nonneg(ls.drop_last());
    }
}

/// Appends one section's pages, each with its navigation row.
fn push_section_pages(pages: &mut Vec<Page>, texts: &Vec<String>, back: bool)
    requires
        old(pages)@.len() + texts@.len() <= usize::MAX,
    ensures
        final(pages)@.len() == old(pages)@.len() + texts@.len(),
        forall|i: int| 0 <= i < old(pages)@.len() ==> final(pages)@[i] == old(pages)@[i],
        forall|i: int|
            0 <= i < texts@.len() ==> (#[trigger] final(pages)@[old(pages)@.len() + i]).text@
                == texts@[i]@,
        navigated(final(pages)@, old(pages)@.len() as int, texts@.len() as int),
        forall|i: int|
            old(pages)@.len() <= i < final(pages)@.len() ==> groups_view((#[trigger] final(pages)@[i]).additionals)
                == if back { back_to_main() } else { Seq::empty() },
{
    let begin = pages.len();
    let n = texts.len();
    let ghost start = pages@;
    reveal(navigated);
    let mut i: usize = 0;
    while i < n
        invariant
            begin == start.len(),
            n == texts@.len(),
            begin + n <= usize::MAX,
            i <= n,
            pages@.len() == begin + i,
            forall|j: int| 0 <= j < begin ==> pages@[j] == start[j],
            forall|j: int| 0 <= j < i ==> (#[trigger] pages@[begin + j]).text@ == texts@[j]@,
            forall|j: int|
                begin <= j < begin + i ==> keyboard_of(#[trigger] pages@[j]) == if n > 1 {
                    Some(nav_row(begin as nat, (j - begin) as nat, n as nat))
                } else {
                    None
                },
            forall|j: int|
                begin <= j < begin + i ==> groups_view((#[trigger] pages@[j]).additionals)
                    == if back { back_to_main() } else { Seq::empty() },
        decreases n - i,
    {
        let page_keyboard = if n > 1 {
            Some(navigation_row(begin, i, n))
        } else {
            None
        };
        let additionals = if back {
            back_to_main_groups()
        } else {
            let empty: Vec<Vec<Vec<Button>>> = Vec::new();
            assert(groups_view(empty) =~= Seq::empty());
            empty
        };
        pages.push(Page { text: texts[i].clone(), page_keyboard, additionals });
        proof {
            let j = begin + i;
            assert(pages@[j].text@ == texts@[i as int]@);
        }
        i = i + 1;
    }
}

proof fn lemma_navigated_kept(old_pages: Seq<Page>, new_pages: Seq<Page>, b: int, n: int)
    requires
        navigated(old_pages, b, n),
        0 <= b,
        0 <= n,
        b + n <= old_pages.len() <= new_pages.len(),
        forall|i: int| 0 <= i < old_pages.len() ==> keyboard_of(#[trigger] new_pages[i]) == keyboard_of(old_pages[i]),
    ensures
        navigated(new_pages, b, n),
{
    reveal(navigated);
    assert forall|i: int| b <= i < b + n implies keyboard_of(#[trigger] new_pages[i]) == if n > 1 {
        Some(nav_row(b as nat, (i - b) as nat, n as nat))
    } else {
        None
    } by {
        assert(keyboard_of(new_pages[i]) == keyboard_of(old_pages[i]));
    }
}

fn listing_units_rendered(listing: &Listing, base: &str) -> (r: Vec<Vec<Token>>)
    ensures
        r@.len() == listing.rows@.len(),
        forall|j: int| 0 <= j < r@.len() ==> balanced(#[trigger] r@[j]@),
        unit_texts(r@) == listing_text(*listing),
{
    let mut units: Vec<Vec<Token>> = Vec::new();
    let mut p: usize = 0;
    while p < listing.rows.len()
        invariant
            p <= listing.rows@.len(),
            units@.len() == p,
            forall|j: int| 0 <= j < units@.len() ==> balanced(#[trigger] units@[j]@),
            forall|j: int| 0 <= j < units@.len() ==> #[trigger] visible(units@[j]@) == row_text(listing.rows@[j]),
        decreases listing.rows@.len() - p,
    {
        units.push(render_item_row(&listing.rows[p], base));
        p = p + 1;
    }
    assert(unit_texts(units@) =~= listing_text(*listing));
    units
}

/// The layout after the main section and the first listings: `bounds` are
/// where the sections start, `links` the groups of links to the listings.
#[verifier::opaque]
pub open spec fn partial_layout(
    pages: Seq<Page>,
    links: Seq<Seq<Seq<ButtonView>>>,
    items: Seq<Listing>,
    bounds: Seq<int>,
    m: int,
) -> bool {
    &&& bounds.len() == items.len() + 2
    &&& bounds[0] == 0
    &&& bounds[1] == m
    &&& 1 <= m
    &&& bounds.last() == pages.len()
    &&& forall|s: int| 0 <= s < bounds.len() - 1 ==> #[trigger] bounds[s] <= bounds[s + 1]
    &&& forall|s: int|
        1 <= s < bounds.len() - 1 ==> navigated(pages, #[trigger] bounds[s], bounds[s + 1] - bounds[s])
    &&& forall|s: int|
        1 <= s < bounds.len() - 1 ==> (bounds[s + 1] - bounds[s] == 0 <==> (#[trigger] items[s - 1]).rows@.len() == 0)
    &&& forall|i: int| m <= i < pages.len() ==> groups_view((#[trigger] pages[i]).additionals) == back_to_main()
    &&& forall|i: int| 0 <= i < pages.len() ==> well_marked(#[trigger] pages[i].text@)
    &&& links == grouped(listing_links(items, bounds))
}

#[verifier::rlimit(60)]
proof fn lemma_partial_step(
    before: Seq<Page>,
    after: Seq<Page>,
    old_links: Seq<Seq<Seq<ButtonView>>>,
    new_links: Seq<Seq<Seq<ButtonView>>>,
    items: Seq<Listing>,
    listing: Listing,
    bounds: Seq<int>,
    m: int,
)
    requires
        partial_layout(before, old_links, items, bounds, m),
        after.len() >= before.len(),
        forall|i: int| 0 <= i < before.len() ==> after[i] == before[i],
        navigated(after, before.len() as int, after.len() - before.len()),
        after.len() == before.len() <==> listing.rows@.len() == 0,
        forall|i: int| before.len() <= i < after.len() ==> groups_view((#[trigger] after[i]).additionals) == back_to_main(),
        forall|i: int| before.len() <= i < after.len() ==> well_marked(#[trigger] after[i].text@),
        new_links == with_row(old_links, seq![(plain(listing.heading@), dec(before.len()))]),
    ensures
        partial_layout(after, new_links, items.push(listing), bounds.push(after.len() as int), m),
{
    reveal(partial_layout);
    let nb = bounds.push(after.len() as int);
    let ni = items.push(listing);
    assert forall|s: int| 1 <= s < nb.len() - 1 implies navigated(after, #[trigger] nb[s], nb[s + 1] - nb[s]) by {
        if s < bounds.len() - 1 {
            assert(nb[s] == bounds[s] && nb[s + 1] == bounds[s + 1]);
            assert(navigated(before, bounds[s], bounds[s + 1] - bounds[s]));
            lemma_bound_le(bounds, s + 1, before.len() as int);
            lemma_bound_ge(bounds, s);
            lemma_navigated_kept(before, after, bounds[s], bounds[s + 1] - bounds[s]);
        }
    }
    assert forall|s: int| 0 <= s < nb.len() - 1 implies #[trigger] nb[s] <= nb[s + 1] by {
        if s < bounds.len() - 1 {
            assert(nb[s] == bounds[s] && nb[s + 1] == bounds[s + 1]);
        }
    }
    assert forall|s: int| 1 <= s < nb.len() - 1 implies (nb[s + 1] - nb[s] == 0 <==> (#[trigger] ni[s - 1]).rows@.len() == 0) by {
        if s < bounds.len() - 1 {
            assert(nb[s] == bounds[s] && nb[s + 1] == bounds[s + 1]);
            assert(ni[s - 1] == items[s - 1]);
        }
    }
    assert forall|i: int| m <= i < after.len() implies groups_view((#[trigger] after[i]).additionals) == back_to_main() by {
        if i < before.len() {
            assert(after[i] == before[i]);
        }
    }
    assert forall|i: int| 0 <= i < after.len() implies well_marked(#[trigger] after[i].text@) by {
        if i < before.len() {
            assert(after[i] == before[i]);
        }
    }
    let link = seq![(plain(listing.heading@), dec(before.len()))];
    assert(listing_links(ni, nb) =~= listing_links(items, bounds).push(link));
    assert(listing_links(ni, nb).drop_last() =~= listing_links(items, bounds));
}

/// Appends a listing's pages and its link.
fn add_listing(
    pages: &mut Vec<Page>,
    links: &mut Vec<Vec<Vec<Button>>>,
    listing: &Listing,
    base: &str,
    Ghost(items): Ghost<Seq<Listing>>,
    Ghost(bounds): Ghost<Seq<int>>,
    Ghost(m): Ghost<int>,
)
    requires
        partial_layout(old(pages)@, groups_view(*old(links)), items, bounds, m),
        old(pages)@.len() + listing.rows@.len() <= usize::MAX,
    ensures
        partial_layout(final(pages)@, groups_view(*final(links)), items.push(*listing), bounds.push(final(pages)@.len() as int), m),
        final(pages)@.len() <= old(pages)@.len() + listing.rows@.len(),
        final(pages)@.len() >= old(pages)@.len(),
        forall|i: int| 0 <= i < old(pages)@.len() ==> #[trigger] page_texts(final(pages)@)[i] == page_texts(old(pages)@)[i],
        forall|i: int| 0 <= i < old(pages)@.len() ==> #[trigger] final(pages)@[i] == old(pages)@[i],
        section_shown(
            page_texts(final(pages)@),
            old(pages)@.len() as int,
            final(pages)@.len() - old(pages)@.len(),
            run_text(listing.heading@),
            listing_text(*listing),
        ),
{
    let heading = render_run(&listing.heading, base);
    let units = listing_units_rendered(listing, base);
    let mut section: Vec<String> = Vec::new();
    append_section_texts(&heading, &units, &mut section);
    let begin = pages.len();
    let ghost before = pages@;
    let ghost old_links = groups_view(*links);
    push_section_pages(pages, &section, true);
    let label = text_parts_to_plain(&listing.heading);
    let mut row: Vec<Button> = Vec::new();
    row.push(Button::new(label, decimal(begin)));
    assert(row_view(row) =~= seq![(plain(listing.heading@), dec(begin as nat))]);
    add_additional_autopage(links, row);
    proof {
        assert forall|i: int| before.len() <= i < pages@.len() implies well_marked(#[trigger] pages@[i].text@) by {
            assert(pages@[before.len() + (i - before.len())].text@ == section@[i - before.len()]@);
        }
        lemma_partial_step(before, pages@, old_links, groups_view(*links), items, *listing, bounds, m);
        let tv = page_texts(pages@);
        let sv = string_views(section@);
        assert forall|j: int| 0 <= j < section@.len() implies #[trigger] tv[before.len() + j] == sv[0 + j] by {
            assert(pages@[before.len() + j].text@ == section@[j]@);
        }
        lemma_section_shown_moved(sv, 0, tv, before.len() as int, section@.len() as int, run_text(listing.heading@), listing_text(*listing));
        assert forall|i: int| 0 <= i < before.len() implies #[trigger] page_texts(pages@)[i] == page_texts(before)[i] by {
            assert(pages@[i] == before[i]);
        }
    }
}

pub open spec fn page_texts(pages: Seq<Page>) -> Seq<Seq<char>> {
    pages.map_values(|p: Page| p.text@)
}

/// The rows of a listing as units of text.
pub open spec fn listing_text(l: Listing) -> Seq<Seq<char>> {
    l.rows@.map_values(|r: ItemRow| row_text(r))
}

/// Each listing's pages show its rows under its heading.
#[verifier::opaque]
pub open spec fn listings_shown(texts: Seq<Seq<char>>, items: Seq<Listing>, bounds: Seq<int>) -> bool {
    forall|s: int|
        1 <= s < bounds.len() - 1 ==> section_shown(
            texts,
            #[trigger] bounds[s],
            bounds[s + 1] - bounds[s],
            run_text(items[s - 1].heading@),
            listing_text(items[s - 1]),
        )
}

proof fn lemma_listings_step(
    before: Seq<Seq<char>>,
    after: Seq<Seq<char>>,
    items: Seq<Listing>,
    listing: Listing,
    bounds: Seq<int>,
)
    requires
        listings_shown(before, items, bounds),
        bounds.len() == items.len() + 2,
        bounds[0] == 0,
        bounds.last() == before.len(),
        forall|s: int| 0 <= s < bounds.len() - 1 ==> #[trigger] bounds[s] <= bounds[s + 1],
        before.len() <= after.len(),
        forall|i: int| 0 <= i < before.len() ==> #[trigger] after[i] == before[i],
        section_shown(after, before.len() as int, after.len() - before.len(), run_text(listing.heading@), listing_text(listing)),
    ensures
        listings_shown(after, items.push(listing), bounds.push(after.len() as int)),
{
    reveal(listings_shown);
    let nb = bounds.push(after.len() as int);
    let ni = items.push(listing);
    let last = bounds.len() - 1;
    assert forall|s: int| 1 <= s < nb.len() - 1 implies section_shown(
        after,
        #[trigger] nb[s],
        nb[s + 1] - nb[s],
        run_text(ni[s - 1].heading@),
        listing_text(ni[s - 1]),
    ) by {
        if s < last {
            assert(nb[s] == bounds[s] && nb[s + 1] == bounds[s + 1]);
            assert(ni[s - 1] == items[s - 1]);
            lemma_mono_le(bounds, s + 1, last);
            lemma_mono_le(bounds, 0, s);
            assert forall|i: int| 0 <= i < bounds[s + 1] - bounds[s] implies #[trigger] after[bounds[s] + i] == before[bounds[s] + i] by {}
            lemma_section_shown_moved(before, bounds[s], after, bounds[s], bounds[s + 1] - bounds[s], run_text(items[s - 1].heading@), listing_text(items[s - 1]));
        } else {
            assert(ni[s - 1] == listing);
        }
    }
}

/// Each part of the main section is a section of its own: the
/// declaration's page, each block of description, or the lone title page.
pub open spec fn main_navigated(pages: Seq<Page>, mb: Seq<int>) -> bool {
    &&& navigated(pages, 0, mb[0])
    &&& forall|k: int| 0 <= k < mb.len() - 1 ==> navigated(pages, #[trigger] mb[k], mb[k + 1] - mb[k])
    &&& mb.last() == 0 ==> navigated(pages, 0, 1)
}

/// Pages `0..m` are the document's main section: its parts show the
/// declaration and the description, each part numbered on its own.
#[verifier::opaque]
pub open spec fn main_laid(pages: Seq<Page>, doc: Document, m: int) -> bool {
    exists|mb: Seq<int>| main_bounds(page_texts(pages), doc, m, mb) && main_navigated(pages, mb)
}

proof fn lemma_main_laid_kept(p1: Seq<Page>, p2: Seq<Page>, doc: Document, m: int)
    requires
        main_laid(p1, doc, m),
        m <= p1.len() <= p2.len(),
        forall|i: int| 0 <= i < p1.len() ==> (#[trigger] p2[i]).text == p1[i].text
            && keyboard_of(p2[i]) == keyboard_of(p1[i]),
    ensures
        main_laid(p2, doc, m),
{
    reveal(main_laid);
    let mb = choose|mb: Seq<int>| main_bounds(page_texts(p1), doc, m, mb) && main_navigated(p1, mb);
    let n = doc.description@.len() as int;
    assert forall|k: int| 0 <= k < mb.len() - 1 implies #[trigger] mb[k] <= mb[k + 1] by {
        assert(mb[k] <= mb[k + 1]);
    }
    lemma_mono_le(mb, 0, n);
    assert forall|i: int| 0 <= i < m implies #[trigger] page_texts(p2)[i] == page_texts(p1)[i] by {
        assert(p2[i].text == p1[i].text);
    }
    lemma_main_bounds_moved(page_texts(p1), page_texts(p2), doc, m, mb);
    assert forall|i: int| 0 <= i < p1.len() implies keyboard_of(#[trigger] p2[i]) == keyboard_of(p1[i]) by {
        assert(p2[i].text == p1[i].text);
    }
    lemma_navigated_kept(p1, p2, 0, mb[0]);
    assert forall|k: int| 0 <= k < mb.len() - 1 implies navigated(p2, #[trigger] mb[k], mb[k + 1] - mb[k]) by {
        lemma_mono_le(mb, k + 1, n);
        lemma_mono_le(mb, 0, k);
        lemma_navigated_kept(p1, p2, mb[k], mb[k + 1] - mb[k]);
    }
    if mb.last() == 0 {
        lemma_navigated_kept(p1, p2, 0, 1);
    }
    assert(main_bounds(page_texts(p2), doc, m, mb) && main_navigated(p2, mb));
}

proof fn lemma_part_pushed(
    before: Seq<Page>,
    after: Seq<Page>,
    texts: Seq<String>,
    part: Seq<String>,
    mb: Seq<int>,
    j: int,
    prev: int,
    b: int,
)
    requires
        0 <= j < mb.len(),
        forall|k: int| 0 <= k < mb.len() - 1 ==> #[trigger] mb[k] <= mb[k + 1],
        0 <= mb[0],
        j == 0 ==> prev == 0,
        j > 0 ==> prev == mb[j - 1],
        b == mb[j],
        b <= texts.len(),
        before.len() == prev,
        part == texts.subrange(prev, b),
        after.len() == b,
        forall|i: int| 0 <= i < prev ==> after[i] == before[i],
        forall|i: int| 0 <= i < part.len() ==> (#[trigger] after[prev + i]).text@ == part[i]@,
        forall|i: int| 0 <= i < prev ==> (#[trigger] before[i]).text@ == texts[i]@,
        forall|i: int| 0 <= i < prev ==> groups_view((#[trigger] before[i]).additionals) == Seq::<Seq<Seq<ButtonView>>>::empty(),
        forall|i: int| prev <= i < after.len() ==> groups_view((#[trigger] after[i]).additionals) == Seq::<Seq<Seq<ButtonView>>>::empty(),
        navigated(after, prev, b - prev),
        j > 0 ==> navigated(before, 0, mb[0]),
        forall|k: int| 0 <= k < j - 1 ==> navigated(before, #[trigger] mb[k], mb[k + 1] - mb[k]),
    ensures
        forall|i: int| 0 <= i < b ==> (#[trigger] after[i]).text@ == texts[i]@,
        forall|i: int| 0 <= i < b ==> groups_view((#[trigger] after[i]).additionals) == Seq::<Seq<Seq<ButtonView>>>::empty(),
        navigated(after, 0, mb[0]),
        forall|k: int| 0 <= k < j ==> navigated(after, #[trigger] mb[k], mb[k + 1] - mb[k]),
{
    assert forall|i: int| 0 <= i < before.len() implies keyboard_of(#[trigger] after[i]) == keyboard_of(before[i]) by {
        assert(after[i] == before[i]);
    }
    if j > 0 {
        lemma_mono_le(mb, 0, j - 1);
        lemma_navigated_kept(before, after, 0, mb[0]);
    }
    assert forall|k: int| 0 <= k < j implies navigated(after, #[trigger] mb[k], mb[k + 1] - mb[k]) by {
        if k < j - 1 {
            lemma_mono_le(mb, k + 1, j - 1);
            lemma_mono_le(mb, 0, k);
            lemma_navigated_kept(before, after, mb[k], mb[k + 1] - mb[k]);
        }
    }
    assert forall|i: int| 0 <= i < b implies (#[trigger] after[i]).text@ == texts[i]@ by {
        if i >= prev {
            assert(after[prev + (i - prev)].text@ == part[i - prev]@);
            assert(part[i - prev] == texts[i]);
        } else {
            assert(after[i] == before[i]);
        }
    }
    assert forall|i: int| 0 <= i < b implies groups_view((#[trigger] after[i]).additionals) == Seq::<Seq<Seq<ButtonView>>>::empty() by {
        if i < prev {
            assert(after[i] == before[i]);
        }
    }
}

fn slice_texts(texts: &Vec<String>, a: usize, b: usize) -> (r: Vec<String>)
    requires
        a <= b <= texts@.len(),
    ensures
        r@ == texts@.subrange(a as int, b as int),
{
    let mut r: Vec<String> = Vec::new();
    let mut i: usize = a;
    while i < b
        invariant
            a <= i <= b,
            b <= texts@.len(),
            r@ == texts@.subrange(a as int, i as int),
        decreases b - i,
    {
        r.push(texts[i].clone());
        assert(r@ =~= texts@.subrange(a as int, i + 1));
        i = i + 1;
    }
    r
}

/// Appends the main section's pages, each part with its own navigation.
#[verifier::loop_isolation(false)]
#[verifier::rlimit(80)]
fn push_main_pages(pages: &mut Vec<Page>, texts: &Vec<String>, starts: &Vec<usize>, Ghost(doc): Ghost<Document>)
    requires
        old(pages)@.len() == 0,
        1 <= texts@.len(),
        main_bounds(string_views(texts@), doc, texts@.len() as int, ints(starts@)),
    ensures
        final(pages)@.len() == texts@.len(),
        forall|i: int| 0 <= i < texts@.len() ==> (#[trigger] final(pages)@[i]).text@ == texts@[i]@,
        forall|i: int| 0 <= i < texts@.len() ==> groups_view((#[trigger] final(pages)@[i]).additionals) == Seq::<Seq<Seq<ButtonView>>>::empty(),
        main_laid(final(pages)@, doc, texts@.len() as int),
{
    let ghost mb = ints(starts@);
    let ghost m = texts@.len() as int;
    let ghost n = doc.description@.len() as int;
    proof {
        assert forall|k: int| 0 <= k < mb.len() - 1 implies #[trigger] mb[k] <= mb[k + 1] by {
            assert(mb[k] <= mb[k + 1]);
        }
        lemma_mono_le(mb, 0, n);
    }
    let mut prev: usize = 0;
    let mut j: usize = 0;
    while j < starts.len()
        invariant
            mb == ints(starts@),
            mb.len() == n + 1,
            m == texts@.len(),
            forall|k: int| 0 <= k < mb.len() - 1 ==> #[trigger] mb[k] <= mb[k + 1],
            0 <= mb[0],
            mb.last() <= m,
            j <= starts@.len(),
            j == 0 ==> prev == 0,
            j > 0 ==> prev as int == mb[j - 1],
            pages@.len() == prev,
            forall|i: int| 0 <= i < prev ==> (#[trigger] pages@[i]).text@ == texts@[i]@,
            forall|i: int| 0 <= i < prev ==> groups_view((#[trigger] pages@[i]).additionals) == Seq::<Seq<Seq<ButtonView>>>::empty(),
            j > 0 ==> navigated(pages@, 0, mb[0]),
            forall|k: int| 0 <= k < j - 1 ==> navigated(pages@, #[trigger] mb[k], mb[k + 1] - mb[k]),
        decreases starts@.len() - j,
    {
        let b = starts[j];
        proof {
            lemma_mono_le(mb, j as int, n);
            if j > 0 {
                lemma_mono_le(mb, j - 1, j as int);
            }
        }
        let part = slice_texts(texts, prev, b);
        let ghost before = pages@;
        push_section_pages(pages, &part, false);
        proof {
            lemma_part_pushed(before, pages@, texts@, part@, mb, j as int, prev as int, b as int);
        }
        prev = b;
        j = j + 1;
    }
    if prev == 0 {
        let part = slice_texts(texts, 0, 1);
        let ghost before = pages@;
        push_section_pages(pages, &part, false);
        proof {
            lemma_title_page_pushed(before, pages@, texts@, part@, mb);
        }
    }
    proof {
        lemma_main_pages_done(pages@, texts@, doc, mb);
    }
}

proof fn lemma_title_page_pushed(before: Seq<Page>, after: Seq<Page>, texts: Seq<String>, part: Seq<String>, mb: Seq<int>)
    requires
        before.len() == 0,
        after.len() == 1,
        1 <= texts.len(),
        part == texts.subrange(0, 1),
        after[0].text@ == part[0]@,
        navigated(after, 0, 1),
        groups_view(after[0].additionals) == Seq::<Seq<Seq<ButtonView>>>::empty(),
        mb.len() >= 1,
        0 <= mb[0],
        mb.last() == 0,
        forall|k: int| 0 <= k < mb.len() - 1 ==> #[trigger] mb[k] <= mb[k + 1],
    ensures
        after[0].text@ == texts[0]@,
        navigated(after, 0, mb[0]),
        forall|k: int| 0 <= k < mb.len() - 1 ==> navigated(after, #[trigger] mb[k], mb[k + 1] - mb[k]),
{
    reveal(navigated);
    assert(part[0] == texts[0]);
    lemma_mono_le(mb, 0, mb.len() - 1);
    assert forall|k: int| 0 <= k < mb.len() - 1 implies navigated(after, #[trigger] mb[k], mb[k + 1] - mb[k]) by {
        lemma_mono_le(mb, 0, k);
        lemma_mono_le(mb, k + 1, mb.len() - 1);
        lemma_mono_le(mb, k, mb.len() - 1);
    }
}

proof fn lemma_main_pages_done(pages: Seq<Page>, texts: Seq<String>, doc: Document, mb: Seq<int>)
    requires
        main_bounds(string_views(texts), doc, texts.len() as int, mb),
        pages.len() == texts.len(),
        forall|i: int| 0 <= i < texts.len() ==> (#[trigger] pages[i]).text@ == texts[i]@,
        forall|k: int| 0 <= k < mb.len() - 1 ==> #[trigger] mb[k] <= mb[k + 1],
        0 <= mb[0],
        navigated(pages, 0, mb[0]),
        forall|k: int| 0 <= k < mb.len() - 1 ==> navigated(pages, #[trigger] mb[k], mb[k + 1] - mb[k]),
        mb.last() == 0 ==> navigated(pages, 0, 1),
    ensures
        main_laid(pages, doc, texts.len() as int),
{
    reveal(main_laid);
    let m = texts.len() as int;
    lemma_mono_le(mb, 0, mb.len() - 1);
    assert forall|i: int| 0 <= i < m implies #[trigger] page_texts(pages)[i] == string_views(texts)[i] by {
        assert(pages[i].text@ == texts[i]@);
    }
    lemma_main_bounds_moved(string_views(texts), page_texts(pages), doc, m, mb);
    assert(main_navigated(pages, mb));
    assert(main_bounds(page_texts(pages), doc, m, mb) && main_navigated(pages, mb));
}

/// The pages of a document: the main section (declaration and description)
/// first, then one section per tabular listing. Every page of the main
/// section carries the links to the listings in groups of three; every page
/// of a listing carries a link back to the first page.
pub fn build_documentation(document: &Document, base_url: &str) -> (r: Documentation)
    requires
        1 + description_units(document.description@) + listing_units(document.items@)
            <= usize::MAX,
    ensures
        forall|i: int| 0 <= i < r.pages@.len() ==> well_marked(#[trigger] r.pages@[i].text@),
        exists|bounds: Seq<int>| laid_out(r.pages@, *document, bounds),
{
    proof {
        lemma_listing_units_nonneg(document.items@);
    }
    let (texts, starts) = main_texts(document, base_url);
    let mut pages: Vec<Page> = Vec::new();
    push_main_pages(&mut pages, &texts, &starts, Ghost(*document));
    let m = pages.len();
    let mut links: Vec<Vec<Vec<Button>>> = Vec::new();
    let ghost mut bounds: Seq<int> = seq![0, m as int];
    let ghost items = document.items@;
    proof {
        lemma_listing_units_nonneg(items);
        assert(listing_links(items.subrange(0, 0), bounds) =~= Seq::empty());
        assert(grouped(Seq::<Seq<ButtonView>>::empty()) =~= Seq::empty());
        assert(groups_view(links) =~= Seq::empty());
        assert forall|i: int| 0 <= i < pages@.len() implies well_marked(#[trigger] pages@[i].text@) by {
            assert(pages@[0 + i].text@ == texts@[i]@);
        }
        reveal(partial_layout);
        assert(partial_layout(pages@, groups_view(links), items.subrange(0, 0), bounds, m as int));
        reveal(listings_shown);
        assert(listings_shown(page_texts(pages@), items.subrange(0, 0), bounds));
    }
    let mut k: usize = 0;
    while k < document.items.len()
        invariant
            items == document.items@,
            k <= items.len(),
            m <= 1 + description_units(document.description@),
            1 + description_units(document.description@) + listing_units(items) <= usize::MAX,
            pages@.len() <= 1 + description_units(document.description@) + listing_units(items.subrange(0, k as int)),
            partial_layout(pages@, groups_view(links), items.subrange(0, k as int), bounds, m as int),
            main_laid(pages@, *document, m as int),
            listings_shown(page_texts(pages@), items.subrange(0, k as int), bounds),
        decreases items.len() - k,
    {
        let ghost before = pages@;
        let ghost links0 = groups_view(links);
        proof {
            lemma_listing_units_prefix(items, k as int);
            assert(items.subrange(0, k as int).push(items[k as int]) =~= items.subrange(0, k + 1));
        }
        add_listing(&mut pages, &mut links, &document.items[k], base_url, Ghost(items.subrange(0, k as int)), Ghost(bounds), Ghost(m as int));
        proof {
            lemma_partial_facts(before, links0, items.subrange(0, k as int), bounds, m as int);
            lemma_main_laid_kept(before, pages@, *document, m as int);
            lemma_listings_step(page_texts(before), page_texts(pages@), items.subrange(0, k as int), items[k as int], bounds);
            bounds = bounds.push(pages@.len() as int);
        }
        k = k + 1;
    }
    let ghost final_links = groups_view(links);
    add_additional_pager(&mut links);
    proof {
        assert(items.subrange(0, k as int) =~= items);
        lemma_partial_facts(pages@, final_links, items, bounds, m as int);
    }
    let ghost before = pages@;
    let mut i: usize = 0;
    while i < m
        invariant
            m <= pages@.len(),
            pages@.len() == before.len(),
            i <= m,
            forall|j: int| 0 <= j < before.len() ==> (#[trigger] pages@[j]).text == before[j].text
                && pages@[j].page_keyboard == before[j].page_keyboard,
            forall|j: int| m <= j < before.len() ==> #[trigger] pages@[j] == before[j],
            forall|j: int| 0 <= j < i ==> groups_view((#[trigger] pages@[j]).additionals)
                == groups_view(links),
        decreases m - i,
    {
        let groups = copy_groups(&links);
        pages[i].additionals = groups;
        i = i + 1;
    }
    proof {
        lemma_final_layout(before, pages@, *document, bounds, m as int, groups_view(links), final_links);
    }
    Documentation { pages }
}

#[verifier::rlimit(60)]
proof fn lemma_final_layout(
    before: Seq<Page>,
    pages: Seq<Page>,
    doc: Document,
    bounds: Seq<int>,
    m: int,
    links: Seq<Seq<Seq<ButtonView>>>,
    grouped_links: Seq<Seq<Seq<ButtonView>>>,
)
    requires
        partial_layout(before, grouped_links, doc.items@, bounds, m),
        links == with_pager(grouped_links),
        m <= pages.len(),
        pages.len() == before.len(),
        forall|j: int| 0 <= j < before.len() ==> (#[trigger] pages[j]).text == before[j].text
            && pages[j].page_keyboard == before[j].page_keyboard,
        forall|j: int| m <= j < before.len() ==> #[trigger] pages[j] == before[j],
        forall|j: int| 0 <= j < m ==> groups_view((#[trigger] pages[j]).additionals) == links,
        main_laid(before, doc, m),
        listings_shown(page_texts(before), doc.items@, bounds),
    ensures
        laid_out(pages, doc, bounds),
        forall|i: int| 0 <= i < pages.len() ==> well_marked(#[trigger] pages[i].text@),
{
    reveal(partial_layout);
    assert forall|j: int| 0 <= j < before.len() implies keyboard_of(#[trigger] pages[j]) == keyboard_of(before[j]) by {
        assert(pages[j].page_keyboard == before[j].page_keyboard);
    }
    assert forall|s: int| 1 <= s < bounds.len() - 1 implies navigated(pages, #[trigger] bounds[s], bounds[s + 1] - bounds[s]) by {
        assert(navigated(before, bounds[s], bounds[s + 1] - bounds[s]));
        lemma_bound_le(bounds, s + 1, before.len() as int);
        lemma_bound_ge(bounds, s);
        lemma_navigated_kept(before, pages, bounds[s], bounds[s + 1] - bounds[s]);
    }
    assert forall|i: int| 0 <= i < pages.len() implies well_marked(#[trigger] pages[i].text@) by {
        assert(pages[i].text == before[i].text);
        assert(well_marked(before[i].text@));
    }
    assert forall|i: int| bounds[1] <= i < pages.len() implies groups_view((#[trigger] pages[i]).additionals)
        == back_to_main() by {
        assert(pages[i] == before[i]);
    }
    assert forall|i: int| 0 <= i < pages.len() implies #[trigger] page_texts(pages)[i] == page_texts(before)[i] by {
        assert(pages[i].text == before[i].text);
    }
    assert(page_texts(pages) =~= page_texts(before));
    lemma_partial_facts(before, grouped_links, doc.items@, bounds, m);
    lemma_main_laid_kept(before, pages, doc, m);
}

proof fn lemma_partial_facts(
    pages: Seq<Page>,
    links: Seq<Seq<Seq<ButtonView>>>,
    items: Seq<Listing>,
    bounds: Seq<int>,
    m: int,
)
    requires
        partial_layout(pages, links, items, bounds, m),
    ensures
        bounds.len() == items.len() + 2,
        bounds[0] == 0,
        bounds[1] == m,
        bounds.last() == pages.len(),
        forall|s: int| 0 <= s < bounds.len() - 1 ==> #[trigger] bounds[s] <= bounds[s + 1],
        m <= pages.len(),
{
    reveal(partial_layout);
    lemma_bound_le(bounds, 1, pages.len() as int);
}

proof fn lemma_bound_le(bounds: Seq<int>, s: int, n: int)
    requires
        0 <= s < bounds.len(),
        bounds.last() == n,
        forall|t: int| 0 <= t < bounds.len() - 1 ==> #[trigger] bounds[t] <= bounds[t + 1],
        bounds[0] == 0,
    ensures
        0 <= bounds[s] <= n,
    decreases bounds.len() - s,
{
    if s < bounds.len() - 1 {
        lemma_bound_le(bounds, s + 1, n);
    }
    lemma_bound_ge(bounds, s);
}

proof fn lemma_bound_ge(bounds: Seq<int>, s: int)
    requires
        0 <= s < bounds.len(),
        forall|t: int| 0 <= t < bounds.len() - 1 ==> #[trigger] bounds[t] <= bounds[t + 1],
        bounds[0] == 0,
    ensures
        0 <= bounds[s],
    decreases s,
{
    if s > 0 {
        lemma_bound_ge(bounds, s - 1);
    }
}

proof fn lemma_listing_units_prefix(ls: Seq<Listing>, k: int)
    requires
        0 <= k < ls.len(),
    ensures
        listing_units(ls.subrange(0, k + 1)) == listing_units(ls.subrange(0, k)) + ls[k].rows@.len(),
        listing_units(ls.subrange(0, k + 1)) <= listing_units(ls),
{
    assert(ls.subrange(0, k + 1).drop_last() =~= ls.subrange(0, k));
    lemma_listing_units_mono(ls, k + 1);
}

proof fn lemma_listing_units_mono(ls: Seq<Listing>, k: int)
    requires
        0 <= k <= ls.len(),
    ensures
        listing_units(ls.subrange(0, k)) <= listing_units(ls),
    decreases ls.len() - k,
{
    if k < ls.len() {
        lemma_listing_units_mono(ls, k + 1);
        assert(ls.subrange(0, k + 1).drop_last() =~= ls.subrange(0, k));
    } else {
        assert(ls.subrange(0, k) =~= ls);
    }
}

} // verus!
