use vstd::prelude::*;
use crate::paging::{capped, covers_in_order, fits, plan_pages, sum_widths, PAGE_BUDGET};
use crate::render::{
    balanced, extend_tokens, lemma_visible_concat, lemma_width_visible, shows, visible, lemma_balanced_concat, lemma_width_concat, lemma_width_nonneg,
    markup, open_after, render_markup, width, Token,
};

verus! {

/// The tokens of a page holding units `a..b` under a title: the title, two
/// line breaks, then the units with a line break between each two.
pub open spec fn page_tokens(title: Seq<Token>, units: Seq<Seq<Token>>, a: int, b: int) -> Seq<Token>
    decreases b - a,
{
    if b <= a + 1 {
        title + seq![Token::Break, Token::Break] + units[a]
    } else {
        page_tokens(title, units, a, b - 1) + seq![Token::Break] + units[b - 1]
    }
}

/// The summed visible widths of units `a..b`.
pub open spec fn units_width(units: Seq<Seq<Token>>, a: int, b: int) -> int
    decreases b - a,
{
    if b <= a {
        0
    } else {
        units_width(units, a, b - 1) + width(units[b - 1])
    }
}

/// The visible width of the page holding units `a..b` under the title.
pub open spec fn section_page_width(title: Seq<Token>, units: Seq<Seq<Token>>, a: int, b: int) -> int {
    width(title) + 2 + units_width(units, a, b) + (b - a - 1)
}

/// The pages of a section: they take the units in order, each page keeps to
/// the budget unless it holds one unit, and each page but the last was full.
pub open spec fn section_layout(
    title: Seq<Token>,
    units: Seq<Seq<Token>>,
    plan: Seq<(usize, usize)>,
) -> bool {
    &&& covers_in_order(units.len() as int, plan)
    &&& forall|i: int|
        0 <= i < plan.len() ==> section_page_width(title, units, (#[trigger] plan[i]).0 as int, plan[i].1 as int)
            <= PAGE_BUDGET || plan[i].1 == plan[i].0 + 1
    &&& forall|i: int|
        0 <= i < plan.len() - 1 ==> section_page_width(title, units, (#[trigger] plan[i]).0 as int, plan[i].1 + 1)
            > PAGE_BUDGET
}

/// The visible text of the page holding units `a..b`: the title, two line
/// breaks, then the units with a line break between each two.
pub open spec fn page_text(title: Seq<char>, units: Seq<Seq<char>>, a: int, b: int) -> Seq<char>
    decreases b - a,
{
    if b <= a + 1 {
        title + seq!['\n', '\n'] + units[a]
    } else {
        page_text(title, units, a, b - 1) + seq!['\n'] + units[b - 1]
    }
}

/// The pages of a section as text: they take the units in order, each keeps
/// to the budget unless it holds one unit, and each but the last was full.
pub open spec fn text_layout(title: Seq<char>, units: Seq<Seq<char>>, plan: Seq<(usize, usize)>) -> bool {
    &&& covers_in_order(units.len() as int, plan)
    &&& forall|i: int|
        0 <= i < plan.len() ==> page_text(title, units, (#[trigger] plan[i]).0 as int, plan[i].1 as int).len()
            <= PAGE_BUDGET || plan[i].1 == plan[i].0 + 1
    &&& forall|i: int|
        0 <= i < plan.len() - 1 ==> page_text(title, units, (#[trigger] plan[i]).0 as int, plan[i].1 + 1).len()
            > PAGE_BUDGET
}

pub open spec fn unit_texts(units: Seq<Vec<Token>>) -> Seq<Seq<char>> {
    units.map_values(|u: Vec<Token>| visible(u@))
}

proof fn lemma_page_visible(title: Seq<Token>, us: Seq<Seq<Token>>, ut: Seq<Seq<char>>, a: int, b: int)
    requires
        0 <= a < b <= us.len(),
        ut.len() == us.len(),
        forall|j: int| 0 <= j < us.len() ==> #[trigger] ut[j] == visible(us[j]),
    ensures
        visible(page_tokens(title, us, a, b)) == page_text(visible(title), ut, a, b),
    decreases b - a,
{
    reveal_with_fuel(visible, 3);
    let two = seq![Token::Break, Token::Break];
    let one = seq![Token::Break];
    assert(two.drop_last() =~= one);
    assert(one.drop_last() =~= Seq::<Token>::empty());
    assert(visible(two) =~= seq!['\n', '\n']);
    assert(visible(one) =~= seq!['\n']);
    if b == a + 1 {
        lemma_visible_concat(title, two);
        lemma_visible_concat(title + two, us[a]);
    } else {
        lemma_page_visible(title, us, ut, a, b - 1);
        let p = page_tokens(title, us, a, b - 1);
        lemma_visible_concat(p, one);
        lemma_visible_concat(p + one, us[b - 1]);
    }
}

proof fn lemma_text_layout(title: Seq<Token>, us: Seq<Seq<Token>>, ut: Seq<Seq<char>>, plan: Seq<(usize, usize)>)
    requires
        section_layout(title, us, plan),
        balanced(title),
        forall|j: int| 0 <= j < us.len() ==> balanced(#[trigger] us[j]),
        ut.len() == us.len(),
        forall|j: int| 0 <= j < us.len() ==> #[trigger] ut[j] == visible(us[j]),
    ensures
        text_layout(visible(title), ut, plan),
{
    assert forall|i: int| 0 <= i < plan.len() implies page_text(visible(title), ut, (#[trigger] plan[i]).0 as int, plan[i].1 as int).len()
        <= PAGE_BUDGET || plan[i].1 == plan[i].0 + 1 by {
        covers_upper(us.len() as int, plan, i);
        lemma_page_visible(title, us, ut, plan[i].0 as int, plan[i].1 as int);
        lemma_page_tokens(title, us, plan[i].0 as int, plan[i].1 as int);
        lemma_width_visible(page_tokens(title, us, plan[i].0 as int, plan[i].1 as int));
    }
    assert forall|i: int| 0 <= i < plan.len() - 1 implies page_text(visible(title), ut, (#[trigger] plan[i]).0 as int, plan[i].1 + 1).len()
        > PAGE_BUDGET by {
        covers_upper(us.len() as int, plan, i + 1);
        assert(plan[i].1 == plan[i + 1].0);
        lemma_page_visible(title, us, ut, plan[i].0 as int, plan[i].1 + 1);
        lemma_page_tokens(title, us, plan[i].0 as int, plan[i].1 + 1);
        lemma_width_visible(page_tokens(title, us, plan[i].0 as int, plan[i].1 + 1));
    }
}

proof fn lemma_two_breaks_balanced()
    ensures
        balanced(seq![Token::Break, Token::Break]),
        width(seq![Token::Break, Token::Break]) == 2,
        balanced(seq![Token::Break]),
        width(seq![Token::Break]) == 1,
{
    reveal_with_fuel(open_after, 3);
    reveal_with_fuel(width, 3);
    assert(seq![Token::Break, Token::Break].drop_last() =~= seq![Token::Break]);
    assert(seq![Token::Break].drop_last() =~= Seq::<Token>::empty());
}

pub proof fn lemma_page_tokens(title: Seq<Token>, units: Seq<Seq<Token>>, a: int, b: int)
    requires
        0 <= a < b <= units.len(),
        balanced(title),
        forall|j: int| 0 <= j < units.len() ==> balanced(#[trigger] units[j]),
    ensures
        balanced(page_tokens(title, units, a, b)),
        width(page_tokens(title, units, a, b)) == section_page_width(title, units, a, b),
    decreases b - a,
{
    lemma_two_breaks_balanced();
    if b == a + 1 {
        let brk = seq![Token::Break, Token::Break];
        lemma_balanced_concat(title, brk);
        lemma_balanced_concat(title + brk, units[a]);
        lemma_width_concat(title, brk);
        lemma_width_concat(title + brk, units[a]);
        assert(units_width(units, a, a) == 0);
    } else {
        lemma_page_tokens(title, units, a, b - 1);
        let p = page_tokens(title, units, a, b - 1);
        let brk = seq![Token::Break];
        lemma_balanced_concat(p, brk);
        lemma_balanced_concat(p + brk, units[b - 1]);
        lemma_width_concat(p, brk);
        lemma_width_concat(p + brk, units[b - 1]);
    }
}

/// The widths a plan sees are the real ones, capped just above the budget.
pub open spec fn capped_widths(units: Seq<Seq<Token>>, ws: Seq<usize>) -> bool {
    &&& ws.len() == units.len()
    &&& forall|j: int| 0 <= j < ws.len() ==> #[trigger] ws[j] as int == capped(width(units[j]))
}

proof fn lemma_capped_sum(units: Seq<Seq<Token>>, ws: Seq<usize>, a: int, b: int)
    requires
        capped_widths(units, ws),
        0 <= a <= b <= ws.len(),
    ensures
        sum_widths(ws, a, b) <= units_width(units, a, b),
        sum_widths(ws, a, b) == units_width(units, a, b) || sum_widths(ws, a, b) > PAGE_BUDGET,
        sum_widths(ws, a, b) >= 0,
    decreases b - a,
{
    if b > a {
        lemma_capped_sum(units, ws, a, b - 1);
        lemma_width_nonneg(units[b - 1]);
        assert(ws[b - 1] as int == capped(width(units[b - 1])));
    }
}

proof fn lemma_capped_fits(
    title: Seq<Token>,
    tw: usize,
    units: Seq<Seq<Token>>,
    ws: Seq<usize>,
    a: int,
    b: int,
)
    requires
        capped_widths(units, ws),
        tw as int == capped(width(title)),
        0 <= a < b <= ws.len(),
    ensures
        fits(tw as int, ws, a, b) <==> section_page_width(title, units, a, b) <= PAGE_BUDGET,
{
    lemma_capped_sum(units, ws, a, b);
    lemma_width_nonneg(title);
}

fn clone_token(k: &Token) -> (r: Token)
    ensures
        r == *k,
{
    match k {
        Token::Open(t) => Token::Open(t.clone_tag()),
        Token::Close(t) => Token::Close(t.clone_tag()),
        Token::Text(s) => Token::Text(s.clone()),
        Token::Break => Token::Break,
    }
}

fn clone_tokens(ts: &Vec<Token>) -> (r: Vec<Token>)
    ensures
        r@ == ts@,
{
    let mut r: Vec<Token> = Vec::new();
    let mut i: usize = 0;
    while i < ts.len()
        invariant
            i <= ts@.len(),
            r@ == ts@.subrange(0, i as int),
        decreases ts@.len() - i,
    {
        r.push(clone_token(&ts[i]));
        assert(r@ =~= ts@.subrange(0, i + 1));
        i = i + 1;
    }
    assert(ts@.subrange(0, i as int) =~= ts@);
    r
}

/// The visible width of the tokens, capped just above the budget.
fn capped_width(ts: &Vec<Token>) -> (r: usize)
    ensures
        r as int == capped(width(ts@)),
{
    let mut w: usize = 0;
    let mut i: usize = 0;
    while i < ts.len()
        invariant
            i <= ts@.len(),
            w as int == capped(width(ts@.subrange(0, i as int))),
        decreases ts@.len() - i,
    {
        let ghost pre = ts@.subrange(0, i as int);
        assert(ts@.subrange(0, i + 1).drop_last() =~= pre);
        proof {
            lemma_width_nonneg(pre);
        }
        let add: usize = match &ts[i] {
            Token::Text(s) => {
                let n = crate::text::chars_of(s.as_str()).len();
                if n > PAGE_BUDGET { PAGE_BUDGET + 1 } else { n }
            },
            Token::Break => 1,
            _ => 0,
        };
        w = if w > PAGE_BUDGET || add > PAGE_BUDGET - w { PAGE_BUDGET + 1 } else { w + add };
        i = i + 1;
    }
    assert(ts@.subrange(0, i as int) =~= ts@);
    w
}

/// The tokens of the page holding units `a..b`.
fn build_page(title: &Vec<Token>, units: &Vec<Vec<Token>>, a: usize, b: usize) -> (r: Vec<Token>)
    requires
        a < b <= units@.len(),
    ensures
        r@ == page_tokens(title@, units@.map_values(|u: Vec<Token>| u@), a as int, b as int),
{
    let ghost us = units@.map_values(|u: Vec<Token>| u@);
    let mut toks = clone_tokens(title);
    toks.push(Token::Break);
    toks.push(Token::Break);
    extend_tokens(&mut toks, clone_tokens(&units[a]));
    assert(toks@ =~= page_tokens(title@, us, a as int, a + 1));
    let mut k: usize = a + 1;
    while k < b
        invariant
            a < k <= b,
            b <= units@.len(),
            us == units@.map_values(|u: Vec<Token>| u@),
            toks@ == page_tokens(title@, us, a as int, k as int),
        decreases b - k,
    {
        toks.push(Token::Break);
        extend_tokens(&mut toks, clone_tokens(&units[k]));
        assert(toks@ =~= page_tokens(title@, us, a as int, k + 1));
        k = k + 1;
    }
    toks
}

proof fn lemma_plan_layout(title: Seq<Token>, tw: usize, us: Seq<Seq<Token>>, ws: Seq<usize>, plan: Seq<(usize, usize)>)
    requires
        capped_widths(us, ws),
        tw as int == capped(width(title)),
        covers_in_order(ws.len() as int, plan),
        crate::paging::within_budget(tw as int, ws, plan),
        crate::paging::filled(tw as int, ws, plan),
    ensures
        section_layout(title, us, plan),
{
    assert forall|i: int| 0 <= i < plan.len() implies section_page_width(title, us, (#[trigger] plan[i]).0 as int, plan[i].1 as int)
        <= PAGE_BUDGET || plan[i].1 == plan[i].0 + 1 by {
        covers_upper(ws.len() as int, plan, i);
        lemma_capped_fits(title, tw, us, ws, plan[i].0 as int, plan[i].1 as int);
    }
    assert forall|i: int| 0 <= i < plan.len() - 1 implies section_page_width(title, us, (#[trigger] plan[i]).0 as int, plan[i].1 + 1)
        > PAGE_BUDGET by {
        assert(plan[i].1 == plan[i + 1].0);
        assert(plan[i + 1].0 < plan[i + 1].1);
        covers_upper(ws.len() as int, plan, i + 1);
        lemma_capped_fits(title, tw, us, ws, plan[i].0 as int, plan[i].1 + 1);
    }
}

/// The markup of each page of a section and the units each page holds. Every
/// title and unit comes balanced, so every page is.
pub fn write_section(title: &Vec<Token>, units: &Vec<Vec<Token>>) -> (r: (Vec<(usize, usize)>, Vec<String>))
    requires
        balanced(title@),
        forall|j: int| 0 <= j < units@.len() ==> balanced(#[trigger] units@[j]@),
    ensures
        section_layout(title@, units@.map_values(|u: Vec<Token>| u@), r.0@),
        r.1@.len() == r.0@.len(),
        forall|i: int|
            0 <= i < r.1@.len() ==> (#[trigger] r.1@[i])@ == markup(
                page_tokens(title@, units@.map_values(|u: Vec<Token>| u@), r.0@[i].0 as int, r.0@[i].1 as int),
            ) && balanced(
                page_tokens(title@, units@.map_values(|u: Vec<Token>| u@), r.0@[i].0 as int, r.0@[i].1 as int),
            ),
        forall|i: int| 0 <= i < r.1@.len() ==> crate::render::well_marked(#[trigger] r.1@[i]@),
        text_layout(visible(title@), unit_texts(units@), r.0@),
        forall|i: int|
            0 <= i < r.1@.len() ==> shows(
                (#[trigger] r.1@[i])@,
                page_text(visible(title@), unit_texts(units@), r.0@[i].0 as int, r.0@[i].1 as int),
            ),
{
    let ghost us = units@.map_values(|u: Vec<Token>| u@);
    let ghost ut = unit_texts(units@);
    let tw = capped_width(title);
    let mut ws: Vec<usize> = Vec::new();
    let mut j: usize = 0;
    while j < units.len()
        invariant
            j <= units@.len(),
            us == units@.map_values(|u: Vec<Token>| u@),
            ws@.len() == j,
            forall|k: int| 0 <= k < j ==> #[trigger] ws@[k] as int == capped(width(us[k])),
        decreases units@.len() - j,
    {
        ws.push(capped_width(&units[j]));
        j = j + 1;
    }
    let plan = plan_pages(tw, &ws);
    proof {
        lemma_plan_layout(title@, tw, us, ws@, plan@);
        assert forall|j: int| 0 <= j < us.len() implies balanced(#[trigger] us[j]) by {
            assert(us[j] == units@[j]@);
        }
        assert forall|j: int| 0 <= j < us.len() implies #[trigger] ut[j] == visible(us[j]) by {
            assert(us[j] == units@[j]@);
        }
        lemma_text_layout(title@, us, ut, plan@);
    }
    let mut texts: Vec<String> = Vec::new();
    let mut i: usize = 0;
    while i < plan.len()
        invariant
            i <= plan@.len(),
            us == units@.map_values(|u: Vec<Token>| u@),
            balanced(title@),
            forall|j: int| 0 <= j < us.len() ==> balanced(#[trigger] us[j]),
            us.len() == units@.len(),
            covers_in_order(units@.len() as int, plan@),
            texts@.len() == i,
            forall|k: int|
                0 <= k < i ==> (#[trigger] texts@[k])@ == markup(
                    page_tokens(title@, us, plan@[k].0 as int, plan@[k].1 as int),
                ) && balanced(page_tokens(title@, us, plan@[k].0 as int, plan@[k].1 as int)),
            forall|k: int| 0 <= k < i ==> crate::render::well_marked(#[trigger] texts@[k]@),
            ut == unit_texts(units@),
            ut.len() == us.len(),
            forall|j: int| 0 <= j < us.len() ==> #[trigger] ut[j] == visible(us[j]),
            forall|k: int|
                0 <= k < i ==> shows(
                    (#[trigger] texts@[k])@,
                    page_text(visible(title@), ut, plan@[k].0 as int, plan@[k].1 as int),
                ),
        decreases plan@.len() - i,
    {
        let (a, b) = plan[i];
        proof {
            covers_upper(units@.len() as int, plan@, i as int);
        }
        let toks = build_page(title, units, a, b);
        proof {
            lemma_page_tokens(title@, us, a as int, b as int);
        }
        let text = render_markup(&toks);
        assert(crate::render::well_marked(text@)) by {
            assert(balanced(toks@) && markup(toks@) == text@);
        }
        proof {
            lemma_page_visible(title@, us, ut, a as int, b as int);
        }
        assert(shows(text@, page_text(visible(title@), ut, a as int, b as int))) by {
            assert(balanced(toks@) && markup(toks@) == text@ && visible(toks@) == page_text(visible(title@), ut, a as int, b as int));
        }
        texts.push(text);
        i = i + 1;
    }
    (plan, texts)
}

/// A page's range ends no later than the last unit.
proof fn covers_upper(n: int, plan: Seq<(usize, usize)>, i: int)
    requires
        covers_in_order(n, plan),
        0 <= i < plan.len(),
    ensures
        plan[i].0 < plan[i].1 <= n,
    decreases plan.len() - i,
{
    if i + 1 < plan.len() {
        covers_upper(n, plan, i + 1);
        assert(plan[i].1 == plan[i + 1].0);
        assert(plan[i + 1].0 < plan[i + 1].1);
    }
}

} // verus!
