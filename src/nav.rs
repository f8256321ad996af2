use vstd::prelude::*;
use crate::model::{copy_rows, groups_view, row_view, rows_view, Button, ButtonView};
use crate::text::{
    all_digits, chars_of, dec, digits_value, lemma_dec_digits, parse_decimal, push_decimal,
    string_of,
};

verus! {

/// What a pressed button asks for.
#[derive(Debug, Clone, Copy, PartialEq, Eq, Structural)]
pub enum Callback {
    /// Show the page with this index and the first additional group.
    Jump(usize),
    /// Keep the page and show the additional group with this index.
    SwitchGroup(usize),
    /// Nothing changes.
    Ignore,
}

/// The payload of the inert button that shows where the reader is.
pub open spec fn sentinel() -> Seq<char> {
    seq!['d', 'u', 'm', 'm', 'y']
}

/// The marker that starts a payload switching the additional group.
pub open spec fn group_marker() -> char {
    'x'
}

/// The request that a payload stands for.
pub open spec fn callback_of(s: Seq<char>) -> Callback {
    if s.len() > 0 && all_digits(s) && digits_value(s) <= usize::MAX {
        Callback::Jump(digits_value(s) as usize)
    } else if s.len() > 1 && s[0] == group_marker() && all_digits(s.skip(1)) && digits_value(
        s.skip(1),
    ) <= usize::MAX {
        Callback::SwitchGroup(digits_value(s.skip(1)) as usize)
    } else {
        Callback::Ignore
    }
}

/// Reads a button payload: a decimal page index, the group marker followed
/// by a decimal group index, or anything else, which asks for nothing.
pub fn parse_callback(data: &str) -> (r: Callback)
    ensures
        r == callback_of(data@),
{
    let cs = chars_of(data);
    match parse_decimal(&cs) {
        Some(n) => Callback::Jump(n),
        None => {
            if cs.len() > 1 && cs[0] == 'x' {
                let mut rest: Vec<char> = Vec::new();
                let mut i: usize = 1;
                while i < cs.len()
                    invariant
                        1 <= i <= cs@.len(),
                        rest@ == cs@.subrange(1, i as int),
                    decreases cs@.len() - i,
                {
                    rest.push(cs[i]);
                    assert(rest@ =~= cs@.subrange(1, i + 1));
                    i = i + 1;
                }
                assert(rest@ =~= cs@.skip(1));
                match parse_decimal(&rest) {
                    Some(n) => Callback::SwitchGroup(n),
                    None => Callback::Ignore,
                }
            } else {
                Callback::Ignore
            }
        },
    }
}

pub open spec fn home_label(k: nat, n: nat) -> Seq<char> {
    seq!['\u{1F3E0}', ' '] + dec(k) + seq![' ', '/', ' '] + dec(n)
}

pub open spec fn prev_label(k: nat) -> Seq<char> {
    seq!['<', ' '] + dec(k)
}

pub open spec fn next_label(k: nat) -> Seq<char> {
    dec(k) + seq![' ', '>']
}

/// The navigation row of page `i` of the `n` pages of a section whose first
/// page has index `begin`: the previous page (but on the first), where the
/// reader is, and the next page (but on the last).
pub open spec fn nav_row(begin: nat, i: nat, n: nat) -> Seq<ButtonView> {
    let home = (home_label(i + 1, n), sentinel());
    let prev = (prev_label(i), dec((begin + i - 1) as nat));
    let next = (next_label(i + 2), dec(begin + i + 1));
    if i == 0 {
        seq![home, next]
    } else if i == n - 1 {
        seq![prev, home]
    } else {
        seq![prev, home, next]
    }
}

fn text_button(label: Vec<char>, payload: Vec<char>) -> (r: Button)
    ensures
        r@ == (label@, payload@),
{
    Button::new(string_of(&label), string_of(&payload))
}

fn number_payload(k: usize) -> (r: Vec<char>)
    ensures
        r@ == dec(k as nat),
{
    let mut v: Vec<char> = Vec::new();
    push_decimal(k, &mut v);
    assert(v@ =~= dec(k as nat));
    v
}

fn home_button(k: usize, n: usize) -> (r: Button)
    ensures
        r@ == (home_label(k as nat, n as nat), sentinel()),
{
    let mut label: Vec<char> = vec!['\u{1F3E0}', ' '];
    push_decimal(k, &mut label);
    label.push(' ');
    label.push('/');
    label.push(' ');
    push_decimal(n, &mut label);
    let payload: Vec<char> = vec!['d', 'u', 'm', 'm', 'y'];
    assert(label@ =~= home_label(k as nat, n as nat));
    assert(payload@ =~= sentinel());
    text_button(label, payload)
}

fn prev_button(k: usize, target: usize) -> (r: Button)
    ensures
        r@ == (prev_label(k as nat), dec(target as nat)),
{
    let mut label: Vec<char> = vec!['<', ' '];
    push_decimal(k, &mut label);
    assert(label@ =~= prev_label(k as nat));
    text_button(label, number_payload(target))
}

fn next_button(k: usize, target: usize) -> (r: Button)
    ensures
        r@ == (next_label(k as nat), dec(target as nat)),
{
    let mut label: Vec<char> = Vec::new();
    push_decimal(k, &mut label);
    label.push(' ');
    label.push('>');
    assert(label@ =~= next_label(k as nat));
    text_button(label, number_payload(target))
}

/// The navigation row of page `i` of `n` pages starting at index `begin`.
pub fn navigation_row(begin: usize, i: usize, n: usize) -> (r: Vec<Button>)
    requires
        i < n,
        begin + n <= usize::MAX,
    ensures
        row_view(r) == nav_row(begin as nat, i as nat, n as nat),
{
    let mut row: Vec<Button> = Vec::new();
    if i == 0 {
        row.push(home_button(1, n));
        row.push(next_button(2, begin + 1));
    } else if i == n - 1 {
        row.push(prev_button(i, begin + i - 1));
        row.push(home_button(i + 1, n));
    } else {
        row.push(prev_button(i, begin + i - 1));
        row.push(home_button(i + 1, n));
        row.push(next_button(i + 2, begin + i + 1));
    }
    assert(row_view(row) =~= nav_row(begin as nat, i as nat, n as nat));
    row
}

pub proof fn lemma_number_payload(k: nat)
    requires
        k <= usize::MAX,
    ensures
        callback_of(dec(k)) == Callback::Jump(k as usize),
        callback_of(seq![group_marker()] + dec(k)) == Callback::SwitchGroup(k as usize),
{
    lemma_dec_digits(k);
    let s = seq![group_marker()] + dec(k);
    assert(s.skip(1) =~= dec(k));
    assert(!crate::text::is_digit(s[0]));
}

/// Navigation: on every page of a section of `n > 1` pages the inert button
/// reads "i+1 / n" and asks for nothing; the first page has no button back
/// and the last none forward; every other button's payload reads back as
/// the index of the page it names.
pub proof fn lemma_navigation(begin: nat, i: nat, n: nat)
    requires
        n > 1,
        i < n,
        begin + n <= usize::MAX,
    ensures
        i == 0 ==> nav_row(begin, i, n).len() == 2 && nav_row(begin, i, n)[0] == (
            home_label(1, n),
            sentinel(),
        ) && callback_of(nav_row(begin, i, n)[1].1) == Callback::Jump((begin + 1) as usize),
        i == n - 1 ==> nav_row(begin, i, n).len() == 2 && nav_row(begin, i, n)[1] == (
            home_label(n, n),
            sentinel(),
        ) && callback_of(nav_row(begin, i, n)[0].1) == Callback::Jump((begin + i - 1) as usize),
        0 < i < n - 1 ==> nav_row(begin, i, n).len() == 3 && nav_row(begin, i, n)[1] == (
            home_label(i + 1, n),
            sentinel(),
        ) && callback_of(nav_row(begin, i, n)[0].1) == Callback::Jump((begin + i - 1) as usize)
            && callback_of(nav_row(begin, i, n)[2].1) == Callback::Jump((begin + i + 1) as usize),
        callback_of(sentinel()) == Callback::Ignore,
{
    if i > 0 {
        lemma_number_payload((begin + i - 1) as nat);
    }
    if i < n - 1 {
        lemma_number_payload(begin + i + 1);
    }
    let s = sentinel();
    assert(!crate::text::is_digit(s[0]));
    assert(s[0] != group_marker());
}

/// The rows of the groups after one more row: it joins the last group while
/// that holds fewer than three rows, and starts a new group otherwise.
pub open spec fn with_row<T>(groups: Seq<Seq<T>>, row: T) -> Seq<Seq<T>> {
    if groups.len() == 0 || groups.last().len() >= 3 {
        groups.push(seq![row])
    } else {
        groups.update(groups.len() - 1, groups.last().push(row))
    }
}

pub fn add_additional_autopage(additionals: &mut Vec<Vec<Vec<Button>>>, row: Vec<Button>)
    ensures
        groups_view(*final(additionals)) == with_row(groups_view(*old(additionals)), row_view(row)),
{
    let ghost g0 = groups_view(*additionals);
    let ghost rv = row_view(row);
    let n = additionals.len();
    if n == 0 || additionals[n - 1].len() >= 3 {
        let mut group: Vec<Vec<Button>> = Vec::new();
        group.push(row);
        assert(rows_view(group) =~= seq![rv]);
        additionals.push(group);
        assert(groups_view(*additionals) =~= with_row(g0, rv));
    } else {
        let mut last = additionals.pop().unwrap();
        let ghost lv = rows_view(last);
        last.push(row);
        assert(rows_view(last) =~= lv.push(rv));
        additionals.push(last);
        assert(groups_view(*additionals) =~= with_row(g0, rv));
    }
}

/// The rows cut into groups of three, in order, the last group holding what
/// is left.
pub open spec fn batched<T>(rows: Seq<T>, groups: Seq<Seq<T>>) -> bool {
    &&& groups.len() == (rows.len() + 2) / 3
    &&& forall|j: int|
        0 <= j < groups.len() ==> #[trigger] groups[j] == rows.subrange(
            3 * j,
            if 3 * j + 3 <= rows.len() { 3 * j + 3 } else { rows.len() as int },
        )
}

/// Grouping: adding rows one by one to empty groups cuts them into groups of
/// three, the last holding the one to three that are left.
pub proof fn lemma_with_row_batches<T>(rows: Seq<T>, groups: Seq<Seq<T>>, row: T)
    requires
        batched(rows, groups),
    ensures
        batched(rows.push(row), with_row(groups, row)),
{
    let n = rows.len() as int;
    let rs = rows.push(row);
    let g2 = with_row(groups, row);
    if n % 3 == 0 {
        assert(groups.len() == n / 3);
        if groups.len() > 0 {
            let j = groups.len() - 1;
            assert(3 * j + 3 == n);
            assert(groups.last().len() == 3);
        }
        assert(g2.len() == (n + 3) / 3);
        assert forall|j: int| 0 <= j < g2.len() implies #[trigger] g2[j] == rs.subrange(
            3 * j,
            if 3 * j + 3 <= rs.len() { 3 * j + 3 } else { rs.len() as int },
        ) by {
            if j < groups.len() {
                assert(3 * j + 3 <= n);
                assert(g2[j] == groups[j]);
                assert(rs.subrange(3 * j, 3 * j + 3) =~= rows.subrange(3 * j, 3 * j + 3));
            } else {
                assert(3 * j == n);
                assert(rs.subrange(3 * j, n + 1) =~= seq![row]);
            }
        }
    } else {
        let j = groups.len() - 1;
        assert(groups.len() == n / 3 + 1);
        assert(3 * j < n < 3 * j + 3);
        assert(groups[j] == rows.subrange(3 * j, n));
        assert(groups.last().len() < 3);
        assert(g2.len() == (n + 3) / 3);
        assert forall|k: int| 0 <= k < g2.len() implies #[trigger] g2[k] == rs.subrange(
            3 * k,
            if 3 * k + 3 <= rs.len() { 3 * k + 3 } else { rs.len() as int },
        ) by {
            if k < j {
                assert(3 * k + 3 <= 3 * j);
                assert(g2[k] == groups[k]);
                assert(rs.subrange(3 * k, 3 * k + 3) =~= rows.subrange(3 * k, 3 * k + 3));
            } else {
                assert(k == j);
                assert(g2[k] =~= rs.subrange(3 * j, n + 1));
            }
        }
    }
}

/// The control row that group `j` of `g` groups gets: forward to the next
/// group (but on the last), back to the previous one (but on the first).
pub open spec fn pager_row(j: nat, g: nat) -> Seq<ButtonView> {
    let down = (seq!['\u{2193}'], seq![group_marker()] + dec(j + 1));
    let up = (seq!['\u{2191}'], seq![group_marker()] + dec((j - 1) as nat));
    if j == 0 {
        seq![down]
    } else if j == g - 1 {
        seq![up]
    } else {
        seq![down, up]
    }
}

/// The groups with their control rows: each group ends with its control row
/// when there is more than one group.
pub open spec fn with_pager(groups: Seq<Seq<Seq<ButtonView>>>) -> Seq<Seq<Seq<ButtonView>>> {
    if groups.len() > 1 {
        groups.map(|j: int, g: Seq<Seq<ButtonView>>| g.push(pager_row(j as nat, groups.len())))
    } else {
        groups
    }
}

fn group_button(arrow: char, target: usize) -> (r: Button)
    ensures
        r@ == (seq![arrow], seq![group_marker()] + dec(target as nat)),
{
    let label: Vec<char> = vec![arrow];
    let mut payload: Vec<char> = vec!['x'];
    push_decimal(target, &mut payload);
    assert(label@ =~= seq![arrow]);
    assert(payload@ =~= seq![group_marker()] + dec(target as nat));
    text_button(label, payload)
}

pub fn add_additional_pager(additionals: &mut Vec<Vec<Vec<Button>>>)
    ensures
        groups_view(*final(additionals)) == with_pager(groups_view(*old(additionals))),
{
    let ghost g0 = groups_view(*additionals);
    let len = additionals.len();
    if len <= 1 {
        return;
    }
    let mut out: Vec<Vec<Vec<Button>>> = Vec::new();
    let mut i: usize = 0;
    while i < len
        invariant
            len == g0.len(),
            len > 1,
            i <= len,
            g0 == groups_view(*additionals),
            out@.len() == i,
            forall|k: int| 0 <= k < i ==> #[trigger] rows_view(out@[k]) == g0[k].push(pager_row(k as nat, len as nat)),
        decreases len - i,
    {
        let mut group = crate::model::copy_rows(&additionals[i]);
        assert(rows_view(additionals@[i as int]) == g0[i as int]);
        let mut row: Vec<Button> = Vec::new();
        if i == 0 {
            row.push(group_button('\u{2193}', i + 1));
        } else if i == len - 1 {
            row.push(group_button('\u{2191}', i - 1));
        } else {
            row.push(group_button('\u{2193}', i + 1));
            row.push(group_button('\u{2191}', i - 1));
        }
        assert(row_view(row) =~= pager_row(i as nat, len as nat));
        let ghost gv = rows_view(group);
        group.push(row);
        assert(rows_view(group) =~= gv.push(pager_row(i as nat, len as nat)));
        out.push(group);
        i = i + 1;
    }
    *additionals = out;
    assert(groups_view(*additionals) =~= with_pager(g0));
}

/// Grouping: with more than one group, the first group's control row only
/// goes forward, the last group's only back, the others' both ways, and each
/// payload reads back as the index of the group it names.
pub proof fn lemma_group_controls(j: nat, g: nat)
    requires
        g > 1,
        j < g,
        g <= usize::MAX,
    ensures
        j == 0 ==> pager_row(j, g).len() == 1 && callback_of(pager_row(j, g)[0].1)
            == Callback::SwitchGroup(1),
        j == g - 1 ==> pager_row(j, g).len() == 1 && callback_of(pager_row(j, g)[0].1)
            == Callback::SwitchGroup((j - 1) as usize),
        0 < j < g - 1 ==> pager_row(j, g).len() == 2 && callback_of(pager_row(j, g)[0].1)
            == Callback::SwitchGroup((j + 1) as usize) && callback_of(pager_row(j, g)[1].1)
            == Callback::SwitchGroup((j - 1) as usize),
{
    if j + 1 < g {
        lemma_number_payload(j + 1);
        lemma_payload_not_page(j + 1);
    }
    if j > 0 {
        lemma_number_payload((j - 1) as nat);
        lemma_payload_not_page((j - 1) as nat);
    }
}

proof fn lemma_payload_not_page(k: nat)
    requires
        k <= usize::MAX,
    ensures
        !all_digits(seq![group_marker()] + dec(k)),
{
    let s = seq![group_marker()] + dec(k);
    assert(!crate::text::is_digit(s[0]));
}

/// What a pressed button changes in a message showing a document.
#[derive(Debug, Clone, Copy, PartialEq, Eq, Structural)]
pub enum CallbackAction {
    /// Show this page with its first additional group; it becomes the
    /// session's page.
    ShowPage(usize),
    /// Keep the session's page and show this additional group of it.
    ShowGroup(usize, usize),
    /// Change nothing.
    Nothing,
}

/// Decides what a callback does to a message whose session is on page
/// `current` of a document of `page_count` pages: a jump to an existing page
/// shows it, a group switch re-shows the current page's keyboard with that
/// group, and anything else changes nothing.
pub fn callback_action(current: usize, page_count: usize, callback: Callback) -> (r: CallbackAction)
    ensures
        r == match callback {
            Callback::Jump(i) => if i < page_count {
                CallbackAction::ShowPage(i)
            } else {
                CallbackAction::Nothing
            },
            Callback::SwitchGroup(g) => if current < page_count {
                CallbackAction::ShowGroup(current, g)
            } else {
                CallbackAction::Nothing
            },
            Callback::Ignore => CallbackAction::Nothing,
        },
{
    match callback {
        Callback::Jump(i) => if i < page_count {
            CallbackAction::ShowPage(i)
        } else {
            CallbackAction::Nothing
        },
        Callback::SwitchGroup(g) => if current < page_count {
            CallbackAction::ShowGroup(current, g)
        } else {
            CallbackAction::Nothing
        },
        Callback::Ignore => CallbackAction::Nothing,
    }
}

} // verus!
