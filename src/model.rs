use vstd::prelude::*;

verus! {

/// An inline style that a run can open.
#[derive(Debug, Clone)]
pub enum TextStyle {
    Link(String),
    Bold,
    Italic,
    Underline,
    Strikethrough,
    Monospaced,
}

/// One leaf of an inline run.
#[derive(Debug, Clone)]
pub enum TextPart {
    Text(String),
    Image(String),
    Table,
    BeginStyle(TextStyle),
    EndStyle,
}

#[derive(Debug, Clone)]
pub enum Paragraph {
    Text(Vec<TextPart>),
    List(Vec<Vec<TextPart>>),
    Code(Vec<TextPart>),
}

/// A row of a tabular listing: the item's name and its summary.
#[derive(Debug, Clone)]
pub struct ItemRow {
    pub name: Vec<TextPart>,
    pub summary: Vec<TextPart>,
}

/// A block of description, under its own heading or the document's title.
#[derive(Debug, Clone)]
pub struct Description {
    pub heading: Option<Vec<TextPart>>,
    pub contents: Vec<Paragraph>,
}

/// A tabular listing of items under a heading.
#[derive(Debug, Clone)]
pub struct Listing {
    pub heading: Vec<TextPart>,
    pub rows: Vec<ItemRow>,
}

#[derive(Debug, Clone)]
pub struct Document {
    pub title: Vec<TextPart>,
    pub declaration: Option<Vec<TextPart>>,
    pub description: Vec<Description>,
    pub items: Vec<Listing>,
}

/// A keyboard button: its label and the payload sent back when pressed.
#[derive(Debug)]
pub struct Button {
    pub text: String,
    pub callback_data: String,
}

pub type ButtonView = (Seq<char>, Seq<char>);

impl View for Button {
    type V = ButtonView;

    open spec fn view(&self) -> ButtonView {
        (self.text@, self.callback_data@)
    }
}

impl Button {
    pub fn new(text: String, callback_data: String) -> (r: Button)
        ensures
            r@ == (text@, callback_data@),
    {
        Button { text, callback_data }
    }

    pub fn duplicate(&self) -> (r: Button)
        ensures
            r@ == self@,
    {
        Button { text: self.text.clone(), callback_data: self.callback_data.clone() }
    }
}

pub open spec fn row_view(row: Vec<Button>) -> Seq<ButtonView> {
    row@.map_values(|b: Button| b@)
}

pub open spec fn rows_view(rows: Vec<Vec<Button>>) -> Seq<Seq<ButtonView>> {
    rows@.map_values(|r: Vec<Button>| row_view(r))
}

pub open spec fn groups_view(groups: Vec<Vec<Vec<Button>>>) -> Seq<Seq<Seq<ButtonView>>> {
    groups@.map_values(|g: Vec<Vec<Button>>| rows_view(g))
}

pub fn copy_row(row: &Vec<Button>) -> (r: Vec<Button>)
    ensures
        row_view(r) == row_view(*row),
{
    let mut r: Vec<Button> = Vec::new();
    let mut i: usize = 0;
    while i < row.len()
        invariant
            i <= row@.len(),
            r@.len() == i,
            forall|j: int| 0 <= j < i ==> #[trigger] r@[j]@ == row@[j]@,
        decreases row@.len() - i,
    {
        r.push(row[i].duplicate());
        i = i + 1;
    }
    assert(row_view(r) =~= row_view(*row));
    r
}

pub fn copy_rows(rows: &Vec<Vec<Button>>) -> (r: Vec<Vec<Button>>)
    ensures
        rows_view(r) == rows_view(*rows),
{
    let mut r: Vec<Vec<Button>> = Vec::new();
    let mut i: usize = 0;
    while i < rows.len()
        invariant
            i <= rows@.len(),
            r@.len() == i,
            forall|j: int| 0 <= j < i ==> #[trigger] row_view(r@[j]) == row_view(rows@[j]),
        decreases rows@.len() - i,
    {
        r.push(copy_row(&rows[i]));
        i = i + 1;
    }
    assert(rows_view(r) =~= rows_view(*rows));
    r
}

pub fn copy_groups(groups: &Vec<Vec<Vec<Button>>>) -> (r: Vec<Vec<Vec<Button>>>)
    ensures
        groups_view(r) == groups_view(*groups),
{
    let mut r: Vec<Vec<Vec<Button>>> = Vec::new();
    let mut i: usize = 0;
    while i < groups.len()
        invariant
            i <= groups@.len(),
            r@.len() == i,
            forall|j: int| 0 <= j < i ==> #[trigger] rows_view(r@[j]) == rows_view(groups@[j]),
        decreases groups@.len() - i,
    {
        r.push(copy_rows(&groups[i]));
        i = i + 1;
    }
    assert(groups_view(r) =~= groups_view(*groups));
    r
}

/// One message's worth of rendered text with its keyboards.
#[derive(Debug)]
pub struct Page {
    pub text: String,
    pub page_keyboard: Option<Vec<Button>>,
    pub additionals: Vec<Vec<Vec<Button>>>,
}

/// The rows of the keyboard a page shows with the given additional group.
pub open spec fn keyboard_rows(page: Page, index: int) -> Seq<Seq<ButtonView>> {
    (match page.page_keyboard {
        Some(row) => seq![row_view(row)],
        None => Seq::empty(),
    }) + (if 0 <= index < page.additionals@.len() {
        rows_view(page.additionals@[index])
    } else {
        Seq::empty()
    })
}

impl Page {
    /// The page's navigation row followed by the rows of additional group
    /// `index`; `None` when there is neither.
    pub fn build_keyboard(&self, index: usize) -> (r: Option<Vec<Vec<Button>>>)
        ensures
            r is None <==> keyboard_rows(*self, index as int).len() == 0,
            r matches Some(rows) ==> rows_view(rows) == keyboard_rows(*self, index as int),
    {
        let mut rows: Vec<Vec<Button>> = Vec::new();
        match &self.page_keyboard {
            Some(row) => {
                rows.push(copy_row(row));
            },
            None => {},
        }
        let ghost first = rows_view(rows);
        assert(first =~= match self.page_keyboard {
            Some(row) => seq![row_view(row)],
            None => Seq::<Seq<ButtonView>>::empty(),
        });
        if index < self.additionals.len() {
            let extra = &self.additionals[index];
            let mut i: usize = 0;
            while i < extra.len()
                invariant
                    i <= extra@.len(),
                    rows@.len() == first.len() + i,
                    forall|k: int| 0 <= k < first.len() ==> #[trigger] row_view(rows@[k]) == first[k],
                    forall|k: int| 0 <= k < i ==> #[trigger] row_view(rows@[first.len() + k])
                        == row_view(extra@[k]),
                decreases extra@.len() - i,
            {
                rows.push(copy_row(&extra[i]));
                i = i + 1;
            }
            let ghost want = keyboard_rows(*self, index as int);
            assert forall|k: int| 0 <= k < rows@.len() implies #[trigger] rows_view(rows)[k] == want[k] by {
                if k >= first.len() {
                    let m = k - first.len();
                    assert(row_view(rows@[first.len() + m]) == row_view(extra@[m]));
                }
            }
            assert(rows_view(rows) =~= want);
        }
        assert(rows_view(rows) =~= keyboard_rows(*self, index as int));
        if rows.len() == 0 {
            None
        } else {
            Some(rows)
        }
    }
}

#[derive(Debug)]
pub struct Documentation {
    pub pages: Vec<Page>,
}

} // verus!
