use vstd::prelude::*;
use vstd::string::*;
use crate::model::{TextPart, TextStyle};
use crate::text::{collapse_whitespace, collapsed, escape_html, html_escape, resolve_url, resolved_url};

verus! {

/// A markup element that text can be wrapped in.
#[derive(Debug, Clone)]
pub enum Tag {
    Bold,
    Italic,
    Underline,
    Strike,
    Code,
    Link(String),
}

/// One piece of rendered output: an opening or closing tag, literal text,
/// or a line break.
#[derive(Debug)]
pub enum Token {
    Open(Tag),
    Close(Tag),
    Text(String),
    Break,
}

/// An attribute value: HTML-escaped, with double quotes as entities too.
pub open spec fn attr_escape(s: Seq<char>) -> Seq<char>
    decreases s.len(),
{
    if s.len() == 0 {
        Seq::empty()
    } else {
        attr_escape(s.drop_last()) + (if s.last() == '"' {
            "&quot;"@
        } else {
            seq![s.last()]
        })
    }
}

pub open spec fn open_markup(t: Tag) -> Seq<char> {
    match t {
        Tag::Bold => "<b>"@,
        Tag::Italic => "<i>"@,
        Tag::Underline => "<u>"@,
        Tag::Strike => "<s>"@,
        Tag::Code => "<code>"@,
        Tag::Link(href) => "<a href=\""@ + attr_escape(html_escape(href@)) + "\">"@,
    }
}

pub open spec fn close_markup(t: Tag) -> Seq<char> {
    match t {
        Tag::Bold => "</b>"@,
        Tag::Italic => "</i>"@,
        Tag::Underline => "</u>"@,
        Tag::Strike => "</s>"@,
        Tag::Code => "</code>"@,
        Tag::Link(_) => "</a>"@,
    }
}

pub open spec fn token_markup(k: Token) -> Seq<char> {
    match k {
        Token::Open(t) => open_markup(t),
        Token::Close(t) => close_markup(t),
        Token::Text(s) => html_escape(s@),
        Token::Break => seq!['\n'],
    }
}

/// The text that a token sequence renders to.
pub open spec fn markup(ts: Seq<Token>) -> Seq<char>
    decreases ts.len(),
{
    if ts.len() == 0 {
        Seq::empty()
    } else {
        markup(ts.drop_last()) + token_markup(ts.last())
    }
}

/// The visible length of a token: its text, or one for a line break.
pub open spec fn token_width(k: Token) -> int {
    match k {
        Token::Text(s) => s@.len() as int,
        Token::Break => 1,
        _ => 0,
    }
}

pub open spec fn width(ts: Seq<Token>) -> int
    decreases ts.len(),
{
    if ts.len() == 0 {
        0
    } else {
        width(ts.drop_last()) + token_width(ts.last())
    }
}

/// The text a reader sees of a token: its text, or a line break.
pub open spec fn token_text(k: Token) -> Seq<char> {
    match k {
        Token::Text(s) => s@,
        Token::Break => seq!['\n'],
        _ => Seq::empty(),
    }
}

pub open spec fn visible(ts: Seq<Token>) -> Seq<char>
    decreases ts.len(),
{
    if ts.len() == 0 {
        Seq::empty()
    } else {
        visible(ts.drop_last()) + token_text(ts.last())
    }
}

/// Whether text is shown as it is, inside a code span, and how many styles
/// were begun inside that span, after the run from the given start.
pub open spec fn code_after(start: (bool, nat), run: Seq<TextPart>) -> (bool, nat)
    decreases run.len(),
{
    if run.len() == 0 {
        start
    } else {
        code_step(code_after(start, run.drop_last()), run.last())
    }
}

/// The code state after one part of a run.
pub open spec fn code_step(cn: (bool, nat), part: TextPart) -> (bool, nat) {
    let (c, n) = cn;
    match part {
        TextPart::BeginStyle(s) => if c {
            (true, n + 1)
        } else if s is Monospaced {
            (true, 0)
        } else {
            (false, 0)
        },
        TextPart::EndStyle => if c && n > 0 {
            (true, (n - 1) as nat)
        } else {
            (false, 0)
        },
        _ => (c, n),
    }
}

/// The text a reader sees of one part, shown inside a code span or not.
pub open spec fn shown_part(c: bool, part: TextPart) -> Seq<char> {
    let raw = match part {
        TextPart::Text(t) => t@,
        TextPart::Image(_) => "(image)"@,
        TextPart::Table => "(table)"@,
        _ => Seq::empty(),
    };
    match part {
        TextPart::Text(_) | TextPart::Image(_) | TextPart::Table => if c { raw } else { collapsed(raw) },
        _ => Seq::empty(),
    }
}

/// The text a reader sees of a run: literal text (whitespace folded outside
/// code), and a placeholder for each image and table.
pub open spec fn shown(start: (bool, nat), run: Seq<TextPart>) -> Seq<char>
    decreases run.len(),
{
    if run.len() == 0 {
        Seq::empty()
    } else {
        shown(start, run.drop_last()) + shown_part(code_after(start, run.drop_last()).0, run.last())
    }
}

/// The tags left open after the tokens, starting from `open`; `None` when a
/// closing tag does not match the innermost open one.
pub open spec fn open_after(open: Seq<Tag>, ts: Seq<Token>) -> Option<Seq<Tag>>
    decreases ts.len(),
{
    if ts.len() == 0 {
        Some(open)
    } else {
        match open_after(open, ts.drop_last()) {
            None => None,
            Some(st) => match ts.last() {
                Token::Open(t) => Some(st.push(t)),
                Token::Close(t) => if st.len() > 0 && st.last() == t {
                    Some(st.drop_last())
                } else {
                    None
                },
                _ => Some(st),
            },
        }
    }
}

/// Every tag is closed, innermost first, and none is closed that was not open.
pub open spec fn balanced(ts: Seq<Token>) -> bool {
    open_after(Seq::empty(), ts) == Some(Seq::<Tag>::empty())
}

/// Text that is the rendering of some balanced token sequence.
pub open spec fn well_marked(text: Seq<char>) -> bool {
    exists|ts: Seq<Token>| balanced(ts) && markup(ts) == text
}

pub proof fn lemma_open_after_concat(open: Seq<Tag>, a: Seq<Token>, b: Seq<Token>)
    ensures
        open_after(open, a + b) == match open_after(open, a) {
            None => None,
            Some(st) => open_after(st, b),
        },
    decreases b.len(),
{
    if b.len() == 0 {
        assert(a + b =~= a);
    } else {
        lemma_open_after_concat(open, a, b.drop_last());
        assert((a + b).drop_last() =~= a + b.drop_last());
        match open_after(open, a) {
            None => {},
            Some(st) => {},
        }
    }
}

pub proof fn lemma_balanced_concat(a: Seq<Token>, b: Seq<Token>)
    requires
        balanced(a),
        balanced(b),
    ensures
        balanced(a + b),
{
    lemma_open_after_concat(Seq::empty(), a, b);
}

pub proof fn lemma_width_concat(a: Seq<Token>, b: Seq<Token>)
    ensures
        width(a + b) == width(a) + width(b),
    decreases b.len(),
{
    if b.len() == 0 {
        assert(a + b =~= a);
    } else {
        lemma_width_concat(a, b.drop_last());
        assert((a + b).drop_last() =~= a + b.drop_last());
    }
}

pub proof fn lemma_visible_concat(a: Seq<Token>, b: Seq<Token>)
    ensures
        visible(a + b) == visible(a) + visible(b),
    decreases b.len(),
{
    if b.len() == 0 {
        assert(a + b =~= a);
        assert(visible(a) + visible(b) =~= visible(a));
    } else {
        lemma_visible_concat(a, b.drop_last());
        assert((a + b).drop_last() =~= a + b.drop_last());
        assert(visible(a + b) =~= visible(a) + visible(b));
    }
}

pub proof fn lemma_width_visible(ts: Seq<Token>)
    ensures
        width(ts) == visible(ts).len(),
    decreases ts.len(),
{
    if ts.len() > 0 {
        lemma_width_visible(ts.drop_last());
    }
}

/// Text that renders balanced tokens whose visible text is `v`.
pub open spec fn shows(text: Seq<char>, v: Seq<char>) -> bool {
    exists|ts: Seq<Token>| balanced(ts) && markup(ts) == text && visible(ts) == v
}

/// The visible text of a bulleted list: one bullet line per item.
pub open spec fn list_text(items: Seq<Vec<TextPart>>) -> Seq<char>
    decreases items.len(),
{
    if items.len() == 0 {
        Seq::empty()
    } else {
        list_text(items.drop_last()) + (if items.len() > 1 { seq!['\n'] } else { Seq::empty() })
            + "\u{2022} "@ + shown((false, 0), items.last()@)
    }
}

pub proof fn lemma_width_nonneg(ts: Seq<Token>)
    ensures
        width(ts) >= 0,
    decreases ts.len(),
{
    if ts.len() > 0 {
        lemma_width_nonneg(ts.drop_last());
    }
}

/// Appends `s` with double quotes written as entities.
fn push_quoted(out: &mut String, s: &str)
    ensures
        final(out)@ == old(out)@ + attr_escape(s@),
{
    let cs = crate::text::chars_of(s);
    let mut i: usize = 0;
    while i < cs.len()
        invariant
            cs@ == s@,
            i <= cs@.len(),
            out@ == old(out)@ + attr_escape(cs@.subrange(0, i as int)),
        decreases cs@.len() - i,
    {
        let c = cs[i];
        if c == '"' {
            out.append("&quot;");
        } else {
            let one = vec![c];
            let piece = crate::text::string_of(&one);
            out.append(piece.as_str());
            assert(one@ =~= seq![c]);
        }
        assert(cs@.subrange(0, i + 1).drop_last() =~= cs@.subrange(0, i as int));
        i = i + 1;
    }
    assert(cs@.subrange(0, i as int) =~= s@);
}

fn push_token_markup(out: &mut String, k: &Token)
    ensures
        final(out)@ == old(out)@ + token_markup(*k),
{
    match k {
        Token::Open(t) => match t {
            Tag::Bold => out.append("<b>"),
            Tag::Italic => out.append("<i>"),
            Tag::Underline => out.append("<u>"),
            Tag::Strike => out.append("<s>"),
            Tag::Code => out.append("<code>"),
            Tag::Link(href) => {
                out.append("<a href=\"");
                let escaped = escape_html(href.as_str());
                push_quoted(out, escaped.as_str());
                out.append("\">");
            },
        },
        Token::Close(t) => match t {
            Tag::Bold => out.append("</b>"),
            Tag::Italic => out.append("</i>"),
            Tag::Underline => out.append("</u>"),
            Tag::Strike => out.append("</s>"),
            Tag::Code => out.append("</code>"),
            Tag::Link(_) => out.append("</a>"),
        },
        Token::Text(s) => {
            let escaped = escape_html(s.as_str());
            out.append(escaped.as_str());
        },
        Token::Break => {
            out.append("\n");
            proof {
                reveal_strlit("\n");
            }
        },
    }
}

/// The text that the tokens render to.
pub fn render_markup(ts: &Vec<Token>) -> (r: String)
    ensures
        r@ == markup(ts@),
{
    let mut out = String::new();
    let mut i: usize = 0;
    while i < ts.len()
        invariant
            i <= ts@.len(),
            out@ == markup(ts@.subrange(0, i as int)),
        decreases ts@.len() - i,
    {
        push_token_markup(&mut out, &ts[i]);
        assert(ts@.subrange(0, i + 1).drop_last() =~= ts@.subrange(0, i as int));
        i = i + 1;
    }
    assert(ts@.subrange(0, i as int) =~= ts@);
    out
}

/// The tags that entries stand for; a dropped style stands for none.
pub open spec fn opened(entries: Seq<Option<Tag>>) -> Seq<Tag>
    decreases entries.len(),
{
    if entries.len() == 0 {
        Seq::empty()
    } else {
        opened(entries.drop_last()) + match entries.last() {
            Some(t) => seq![t],
            None => Seq::empty(),
        }
    }
}

/// The opening tag of an entry, if it has one.
pub open spec fn entry_open(e: Option<Tag>) -> Seq<Token> {
    match e {
        Some(t) => seq![Token::Open(t)],
        None => Seq::empty(),
    }
}

/// The closing tag of an entry, if it has one.
pub open spec fn entry_close(e: Option<Tag>) -> Seq<Token> {
    match e {
        Some(t) => seq![Token::Close(t)],
        None => Seq::empty(),
    }
}

/// The closing tags of the entries, innermost first.
pub open spec fn close_tokens(entries: Seq<Option<Tag>>) -> Seq<Token>
    decreases entries.len(),
{
    if entries.len() == 0 {
        Seq::empty()
    } else {
        entry_close(entries.last()) + close_tokens(entries.drop_last())
    }
}

/// The opening tags of the entries, outermost first.
pub open spec fn open_tokens(entries: Seq<Option<Tag>>) -> Seq<Token>
    decreases entries.len(),
{
    if entries.len() == 0 {
        Seq::empty()
    } else {
        open_tokens(entries.drop_last()) + entry_open(entries.last())
    }
}

/// The entry that beginning a style leaves: its tag, or none for a link
/// whose target does not resolve against `base`.
pub open spec fn entry_for(style: TextStyle, base: Seq<char>, e: Option<Tag>) -> bool {
    match style {
        TextStyle::Link(href) => match e {
            Some(Tag::Link(u)) => resolved_url(base, href@) == Some(u@),
            None => resolved_url(base, href@) is None,
            _ => false,
        },
        TextStyle::Bold => e == Some(Tag::Bold),
        TextStyle::Italic => e == Some(Tag::Italic),
        TextStyle::Underline => e == Some(Tag::Underline),
        TextStyle::Strikethrough => e == Some(Tag::Strike),
        TextStyle::Monospaced => e == Some(Tag::Code),
    }
}

/// The inline styles open at a point of a run. Each style that was begun has
/// an entry, `None` for a link whose target did not resolve. Inside a code
/// span the entries' tags are closed and `nested` counts the styles begun
/// within the span.
pub struct StyleStack {
    pub entries: Vec<Option<Tag>>,
    pub in_code: bool,
    pub nested: usize,
}

impl StyleStack {
    /// The tags open in the output while this stack is current.
    pub open spec fn open_tags(&self) -> Seq<Tag> {
        if self.in_code {
            seq![Tag::Code]
        } else {
            opened(self.entries@)
        }
    }

    pub open spec fn emitted(&self, out: Seq<Token>) -> bool {
        open_after(Seq::empty(), out) == Some(self.open_tags())
    }

    pub fn new() -> (r: StyleStack)
        ensures
            r.open_tags() == Seq::<Tag>::empty(),
            !r.in_code,
            r.nested == 0,
            r.entries@ == Seq::<Option<Tag>>::empty(),
    {
        StyleStack { entries: Vec::new(), in_code: false, nested: 0 }
    }

    /// Emits the closing tags of the entries, innermost first, without
    /// removing them.
    fn close_entries(&self, out: &mut Vec<Token>)
        requires
            open_after(Seq::empty(), old(out)@) == Some(opened(self.entries@)),
        ensures
            open_after(Seq::empty(), final(out)@) == Some(Seq::<Tag>::empty()),
            width(final(out)@) == width(old(out)@),
            visible(final(out)@) == visible(old(out)@),
            final(out)@ == old(out)@ + close_tokens(self.entries@),
    {
        let mut k: usize = self.entries.len();
        assert(self.entries@.subrange(0, k as int) =~= self.entries@);
        while k > 0
            invariant
                k <= self.entries@.len(),
                out@ + close_tokens(self.entries@.subrange(0, k as int)) == old(out)@ + close_tokens(self.entries@),
                open_after(Seq::empty(), out@) == Some(opened(self.entries@.subrange(0, k as int))),
                width(out@) == width(old(out)@),
                visible(out@) == visible(old(out)@),
            decreases k,
        {
            let ghost pre = out@;
            assert(self.entries@.subrange(0, k as int).drop_last() =~= self.entries@.subrange(0, k - 1));
            let ghost rest = close_tokens(self.entries@.subrange(0, k - 1));
            assert(close_tokens(self.entries@.subrange(0, k as int)) == entry_close(self.entries@[k - 1]) + rest);
            match &self.entries[k - 1] {
                Some(t) => {
                    out.push(Token::Close(t.clone_tag()));
                    assert(out@.drop_last() =~= pre);
                    assert(out@ + rest =~= pre + (entry_close(self.entries@[k - 1]) + rest));
                },
                None => {
                    assert(pre + (entry_close(self.entries@[k - 1]) + rest) =~= out@ + rest);
                },
            }
            k = k - 1;
        }
        assert(self.entries@.subrange(0, 0) =~= Seq::<Option<Tag>>::empty());
        assert(out@ + Seq::<Token>::empty() =~= out@);
    }

    /// Emits the opening tags of the entries, outermost first.
    fn reopen_entries(&self, out: &mut Vec<Token>)
        requires
            open_after(Seq::empty(), old(out)@) == Some(Seq::<Tag>::empty()),
        ensures
            open_after(Seq::empty(), final(out)@) == Some(opened(self.entries@)),
            width(final(out)@) == width(old(out)@),
            visible(final(out)@) == visible(old(out)@),
            final(out)@ == old(out)@ + open_tokens(self.entries@),
    {
        let mut k: usize = 0;
        assert(self.entries@.subrange(0, 0) =~= Seq::<Option<Tag>>::empty());
        assert(old(out)@ + Seq::<Token>::empty() =~= old(out)@);
        while k < self.entries.len()
            invariant
                k <= self.entries@.len(),
                out@ == old(out)@ + open_tokens(self.entries@.subrange(0, k as int)),
                open_after(Seq::empty(), out@) == Some(opened(self.entries@.subrange(0, k as int))),
                width(out@) == width(old(out)@),
                visible(out@) == visible(old(out)@),
            decreases self.entries@.len() - k,
        {
            let ghost pre = out@;
            assert(self.entries@.subrange(0, k + 1).drop_last() =~= self.entries@.subrange(0, k as int));
            let ghost before_k = open_tokens(self.entries@.subrange(0, k as int));
            match &self.entries[k] {
                Some(t) => {
                    out.push(Token::Open(t.clone_tag()));
                    assert(out@.drop_last() =~= pre);
                },
                None => {},
            }
            assert(out@ =~= old(out)@ + (before_k + entry_open(self.entries@[k as int])));
            k = k + 1;
        }
        assert(self.entries@.subrange(0, k as int) =~= self.entries@);
    }

    /// Begins a style. A link is resolved against `base`; one that does not
    /// resolve is kept as an entry with no tag. Inside a code span styles are
    /// only counted; beginning a code span closes the open tags.
    pub fn push(&mut self, style: &TextStyle, base: &str, out: &mut Vec<Token>)
        requires
            old(self).emitted(old(out)@),
        ensures
            final(self).emitted(final(out)@),
            width(final(out)@) == width(old(out)@),
            visible(final(out)@) == visible(old(out)@),
            old(self).in_code ==> final(self).in_code && final(self).entries@ == old(self).entries@,
            old(self).in_code && old(self).nested < usize::MAX ==> final(self).nested == old(self).nested + 1,
            !old(self).in_code && style is Monospaced ==> final(self).in_code && final(self).nested == 0
                && final(self).entries@ == old(self).entries@,
            !old(self).in_code && !(style is Monospaced) ==> !final(self).in_code
                && final(self).nested == old(self).nested
                && final(self).entries@.drop_last() == old(self).entries@
                && final(self).entries@.len() == old(self).entries@.len() + 1
                && entry_for(*style, base@, final(self).entries@.last()),
            old(self).in_code ==> final(out)@ == old(out)@,
            !old(self).in_code && style is Monospaced ==> final(out)@ == old(out)@ + close_tokens(
                old(self).entries@,
            ) + seq![Token::Open(Tag::Code)],
            !old(self).in_code && !(style is Monospaced) ==> final(out)@ == old(out)@ + entry_open(
                final(self).entries@.last(),
            ),
    {
        if self.in_code {
            if self.nested < usize::MAX {
                self.nested = self.nested + 1;
            }
            return;
        }
        let ghost pre = out@;
        let ghost entries0 = self.entries@;
        let tag: Option<Tag> = match style {
            TextStyle::Link(href) => match resolve_url(base, href.as_str()) {
                Some(u) => Some(Tag::Link(u)),
                None => None,
            },
            TextStyle::Bold => Some(Tag::Bold),
            TextStyle::Italic => Some(Tag::Italic),
            TextStyle::Underline => Some(Tag::Underline),
            TextStyle::Strikethrough => Some(Tag::Strike),
            TextStyle::Monospaced => {
                self.close_entries(out);
                let ghost mid = out@;
                out.push(Token::Open(Tag::Code));
                assert(out@.drop_last() =~= mid);
                assert(out@ =~= pre + close_tokens(entries0) + seq![Token::Open(Tag::Code)]);
                self.in_code = true;
                self.nested = 0;
                return;
            },
        };
        match &tag {
            Some(t) => {
                out.push(Token::Open(t.clone_tag()));
                assert(out@.drop_last() =~= pre);
            },
            None => {},
        }
        let ghost tag_v = tag;
        assert(out@ =~= pre + entry_open(tag_v));
        self.entries.push(tag);
        assert(self.entries@.drop_last() =~= entries0);
        proof {
            match tag_v {
                Some(t) => {
                    assert(opened(self.entries@) =~= opened(entries0).push(t));
                },
                None => {
                    assert(opened(self.entries@) =~= opened(entries0));
                },
            }
        }
    }

    /// Ends the innermost style that was begun.
    pub fn pop(&mut self, out: &mut Vec<Token>)
        requires
            old(self).emitted(old(out)@),
        ensures
            final(self).emitted(final(out)@),
            width(final(out)@) == width(old(out)@),
            visible(final(out)@) == visible(old(out)@),
            old(self).in_code && old(self).nested > 0 ==> final(self).in_code && final(self).nested
                == old(self).nested - 1 && final(self).entries@ == old(self).entries@,
            old(self).in_code && old(self).nested == 0 ==> !final(self).in_code
                && final(self).nested == 0 && final(self).entries@ == old(self).entries@,
            !old(self).in_code ==> !final(self).in_code && final(self).nested == old(self).nested
                && final(self).entries@ == if old(
                self,
            ).entries@.len() > 0 {
                old(self).entries@.drop_last()
            } else {
                old(self).entries@
            },
            old(self).in_code && old(self).nested > 0 ==> final(out)@ == old(out)@,
            old(self).in_code && old(self).nested == 0 ==> final(out)@ == old(out)@ + seq![
                Token::Close(Tag::Code),
            ] + open_tokens(old(self).entries@),
            !old(self).in_code ==> final(out)@ == old(out)@ + if old(self).entries@.len() > 0 {
                entry_close(old(self).entries@.last())
            } else {
                Seq::empty()
            },
    {
        if self.in_code {
            if self.nested > 0 {
                self.nested = self.nested - 1;
                return;
            }
            let ghost pre = out@;
            out.push(Token::Close(Tag::Code));
            assert(out@.drop_last() =~= pre);
            assert(seq![Tag::Code].drop_last() =~= Seq::<Tag>::empty());
            self.in_code = false;
            self.reopen_entries(out);
            assert(out@ =~= pre + seq![Token::Close(Tag::Code)] + open_tokens(self.entries@));
        } else {
            let ghost pre = out@;
            let ghost entries0 = self.entries@;
            match self.entries.pop() {
                Some(Some(t)) => {
                    assert(entries0.drop_last() =~= self.entries@);
                    assert(opened(entries0) =~= opened(self.entries@).push(t));
                    assert(opened(entries0).drop_last() =~= opened(self.entries@));
                    out.push(Token::Close(t));
                    assert(out@.drop_last() =~= pre);
                    assert(out@ =~= pre + entry_close(entries0.last()));
                },
                Some(None) => {
                    assert(entries0.drop_last() =~= self.entries@);
                    assert(opened(entries0) =~= opened(self.entries@));
                    assert(out@ =~= pre + entry_close(entries0.last()));
                },
                None => {
                    assert(out@ =~= pre + Seq::<Token>::empty());
                },
            }
        }
    }

    /// Closes every open tag and forgets every style.
    pub fn finish(&mut self, out: &mut Vec<Token>)
        requires
            old(self).emitted(old(out)@),
        ensures
            open_after(Seq::empty(), final(out)@) == Some(Seq::<Tag>::empty()),
            final(self).open_tags() == Seq::<Tag>::empty(),
            !final(self).in_code,
            width(final(out)@) == width(old(out)@),
            visible(final(out)@) == visible(old(out)@),
            final(out)@ == old(out)@ + finish_tokens(stack_view(*old(self))),
    {
        if self.in_code {
            let ghost pre = out@;
            out.push(Token::Close(Tag::Code));
            assert(out@.drop_last() =~= pre);
            assert(out@ =~= pre + seq![Token::Close(Tag::Code)]);
            assert(seq![Tag::Code].drop_last() =~= Seq::<Tag>::empty());
            self.in_code = false;
            self.nested = 0;
        } else {
            self.close_entries(out);
        }
        self.entries = Vec::new();
        assert(opened(self.entries@) =~= Seq::<Tag>::empty());
    }
}

impl Tag {
    pub fn clone_tag(&self) -> (r: Tag)
        ensures
            r == *self,
    {
        match self {
            Tag::Bold => Tag::Bold,
            Tag::Italic => Tag::Italic,
            Tag::Underline => Tag::Underline,
            Tag::Strike => Tag::Strike,
            Tag::Code => Tag::Code,
            Tag::Link(h) => Tag::Link(h.clone()),
        }
    }
}

/// Appends literal text: whitespace runs fold to one space outside code.
fn write_text(stack: &StyleStack, text: &str, out: &mut Vec<Token>)
    requires
        stack.emitted(old(out)@),
    ensures
        stack.emitted(final(out)@),
        final(out)@.len() == old(out)@.len() + 1,
        final(out)@.drop_last() == old(out)@,
        final(out)@.last() matches Token::Text(t) && t@ == (if stack.in_code {
            text@
        } else {
            crate::text::collapsed(text@)
        }),
        visible(final(out)@) == visible(old(out)@) + (if stack.in_code {
            text@
        } else {
            crate::text::collapsed(text@)
        }),
{
    let shown = if stack.in_code {
        String::from_str(text)
    } else {
        collapse_whitespace(text)
    };
    let ghost pre = out@;
    out.push(Token::Text(shown));
    assert(out@.drop_last() =~= pre);
}

proof fn lemma_shown_step(start: (bool, nat), run: Seq<TextPart>, i: int)
    requires
        0 <= i < run.len(),
    ensures
        run.subrange(0, i + 1).drop_last() == run.subrange(0, i),
        run.subrange(0, i + 1).last() == run[i],
{
    assert(run.subrange(0, i + 1).drop_last() =~= run.subrange(0, i));
}

/// The styles a stack holds, whether it is inside a code span, and how many
/// styles were begun inside that span.
pub type StackView = (Seq<Option<Tag>>, bool, nat);

pub open spec fn stack_view(s: StyleStack) -> StackView {
    (s.entries@, s.in_code, s.nested as nat)
}

/// The tokens that closing every open tag appends.
pub open spec fn finish_tokens(s: StackView) -> Seq<Token> {
    if s.1 {
        seq![Token::Close(Tag::Code)]
    } else {
        close_tokens(s.0)
    }
}

/// The stack after ending the innermost style.
pub open spec fn after_pop(s: StackView) -> StackView {
    if s.1 && s.2 > 0 {
        (s.0, true, (s.2 - 1) as nat)
    } else if s.1 {
        (s.0, false, 0)
    } else {
        (if s.0.len() > 0 { s.0.drop_last() } else { s.0 }, false, s.2)
    }
}

/// The tokens that ending the innermost style appends.
pub open spec fn pop_tokens(s: StackView) -> Seq<Token> {
    if s.1 && s.2 > 0 {
        Seq::empty()
    } else if s.1 {
        seq![Token::Close(Tag::Code)] + open_tokens(s.0)
    } else if s.0.len() > 0 {
        entry_close(s.0.last())
    } else {
        Seq::empty()
    }
}

/// Beginning `style` takes the stack from `s0` to `s1` and appends `toks`.
pub open spec fn begun(s0: StackView, style: TextStyle, base: Seq<char>, s1: StackView, toks: Seq<Token>) -> bool {
    if s0.1 {
        s1 == (s0.0, true, s0.2 + 1) && toks == Seq::<Token>::empty()
    } else if style is Monospaced {
        s1 == (s0.0, true, 0nat) && toks == close_tokens(s0.0) + seq![Token::Open(Tag::Code)]
    } else {
        &&& !s1.1
        &&& s1.2 == s0.2
        &&& s1.0.len() == s0.0.len() + 1
        &&& s1.0.drop_last() == s0.0
        &&& entry_for(style, base, s1.0.last())
        &&& toks == entry_open(s1.0.last())
    }
}

/// A single text token showing `t`: as it is in code, folded outside.
pub open spec fn text_token(k: Token, in_code: bool, t: Seq<char>) -> bool {
    k matches Token::Text(x) && x@ == if in_code { t } else { collapsed(t) }
}

/// Text shown inside a link to `href`: the link begins, the text, it ends.
pub open spec fn linked_text(s0: StackView, href: String, base: Seq<char>, label: Seq<char>, s1: StackView, toks: Seq<Token>) -> bool {
    exists|sm: StackView, n: int|
        #[trigger] begun(s0, TextStyle::Link(href), base, sm, toks.subrange(0, n)) && 0 <= n && n + 1 <= toks.len()
            && text_token(toks[n], sm.1, label) && toks.subrange(n + 1, toks.len() as int) == pop_tokens(sm)
            && s1 == after_pop(sm)
}

/// One part of a run takes the stack from `s0` to `s1` and appends `toks`.
pub open spec fn part_written(s0: StackView, part: TextPart, base: Seq<char>, s1: StackView, toks: Seq<Token>) -> bool {
    match part {
        TextPart::Text(t) => s1 == s0 && toks.len() == 1 && text_token(toks[0], s0.1, t@),
        TextPart::Image(src) => linked_text(s0, src, base, "(image)"@, s1, toks),
        TextPart::Table => exists|h: String| h@ == base && #[trigger] linked_text(s0, h, base, "(table)"@, s1, toks),
        TextPart::BeginStyle(style) => begun(s0, style, base, s1, toks),
        TextPart::EndStyle => s1 == after_pop(s0) && toks == pop_tokens(s0),
    }
}

/// Parts `0..i` of a run: part `k` takes the stack from `states[k]` to
/// `states[k + 1]` and appends `toks[cuts[k]..cuts[k + 1]]`.
#[verifier::opaque]
pub open spec fn written_upto(
    s0: StackView,
    run: Seq<TextPart>,
    base: Seq<char>,
    states: Seq<StackView>,
    cuts: Seq<int>,
    toks: Seq<Token>,
    i: int,
) -> bool {
    &&& states.len() == i + 1
    &&& cuts.len() == i + 1
    &&& states[0] == s0
    &&& cuts[0] == 0
    &&& cuts[i] == toks.len()
    &&& forall|k: int| 0 <= k < i ==> 0 <= #[trigger] cuts[k] <= cuts[k + 1]
    &&& forall|k: int|
        0 <= k < i ==> part_written(
            states[k],
            run[k],
            base,
            states[k + 1],
            toks.subrange(#[trigger] cuts[k], cuts[k + 1]),
        )
}

/// A run takes the stack from `s0` to `s1` and appends `toks`, part by part.
pub open spec fn run_written(s0: StackView, run: Seq<TextPart>, base: Seq<char>, s1: StackView, toks: Seq<Token>) -> bool {
    exists|states: Seq<StackView>, cuts: Seq<int>|
        #[trigger] written_upto(s0, run, base, states, cuts, toks, run.len() as int) && states.last() == s1
}

proof fn lemma_written_step(
    s0: StackView,
    run: Seq<TextPart>,
    base: Seq<char>,
    states: Seq<StackView>,
    cuts: Seq<int>,
    toks: Seq<Token>,
    i: int,
    s1: StackView,
    more: Seq<Token>,
)
    requires
        0 <= i < run.len(),
        written_upto(s0, run, base, states, cuts, toks, i),
        part_written(states[i], run[i], base, s1, more),
    ensures
        written_upto(s0, run, base, states.push(s1), cuts.push((toks.len() + more.len()) as int), toks + more, i + 1),
        states.push(s1).last() == s1,
{
    reveal(written_upto);
    let ns = states.push(s1);
    let nc = cuts.push((toks.len() + more.len()) as int);
    let nt = toks + more;
    assert forall|k: int| 0 <= k < i + 1 implies 0 <= #[trigger] nc[k] <= nc[k + 1] by {
        if k < i {
            assert(nc[k] == cuts[k] && nc[k + 1] == cuts[k + 1]);
        }
    }
    assert forall|k: int| 0 <= k < i + 1 implies part_written(
        ns[k],
        run[k],
        base,
        ns[k + 1],
        nt.subrange(#[trigger] nc[k], nc[k + 1]),
    ) by {
        if k < i {
            assert(nc[k] == cuts[k] && nc[k + 1] == cuts[k + 1]);
            lemma_cut_le(cuts, k + 1, i);
            assert(nt.subrange(cuts[k], cuts[k + 1]) =~= toks.subrange(cuts[k], cuts[k + 1]));
            assert(part_written(states[k], run[k], base, states[k + 1], toks.subrange(cuts[k], cuts[k + 1])));
        } else {
            assert(nt.subrange(toks.len() as int, nt.len() as int) =~= more);
        }
    }
}

proof fn lemma_written_start(s0: StackView, run: Seq<TextPart>, base: Seq<char>)
    ensures
        written_upto(s0, run, base, seq![s0], seq![0int], Seq::empty(), 0),
{
    reveal(written_upto);
}

proof fn lemma_cut_le(cuts: Seq<int>, k: int, i: int)
    requires
        0 <= k <= i < cuts.len(),
        forall|j: int| 0 <= j < i ==> 0 <= #[trigger] cuts[j] <= cuts[j + 1],
    ensures
        cuts[k] <= cuts[i],
    decreases i - k,
{
    if k < i {
        lemma_cut_le(cuts, k + 1, i);
        assert(cuts[k] <= cuts[k + 1]);
    }
}

/// Appends `label` inside a link to `href`.
fn write_linked(stack: &mut StyleStack, href: String, label: &str, base: &str, out: &mut Vec<Token>)
    requires
        old(stack).emitted(old(out)@),
        !old(stack).in_code ==> old(stack).nested == 0,
        old(stack).nested < usize::MAX,
    ensures
        final(stack).emitted(final(out)@),
        stack_view(*final(stack)) == stack_view(*old(stack)),
        final(stack).in_code == old(stack).in_code,
        final(stack).nested == old(stack).nested,
        visible(final(out)@) == visible(old(out)@) + (if old(stack).in_code {
            label@
        } else {
            collapsed(label@)
        }),
        final(out)@.len() >= old(out)@.len(),
        final(out)@.subrange(0, old(out)@.len() as int) == old(out)@,
        linked_text(
            stack_view(*old(stack)),
            href,
            base@,
            label@,
            stack_view(*final(stack)),
            final(out)@.subrange(old(out)@.len() as int, final(out)@.len() as int),
        ),
{
    let ghost pre = out@;
    let ghost sm = stack_view(*stack);
    let style = TextStyle::Link(href);
    stack.push(&style, base, out);
    let ghost sa = stack_view(*stack);
    let ghost mid = out@;
    write_text(stack, label, out);
    let ghost mid2 = out@;
    stack.pop(out);
    proof {
        let more = out@.subrange(pre.len() as int, out@.len() as int);
        let n = mid.len() - pre.len();
        assert(pre.len() <= mid.len() && mid.len() < mid2.len() && mid2.len() <= out@.len());
        assert(mid.subrange(0, pre.len() as int) =~= pre);
        assert(mid2.subrange(0, mid.len() as int) =~= mid);
        assert(out@.subrange(0, mid2.len() as int) =~= mid2);
        assert forall|k: int| 0 <= k < pre.len() implies out@[k] == pre[k] by {
            assert(out@.subrange(0, mid2.len() as int)[k] == mid2[k]);
            assert(mid2.subrange(0, mid.len() as int)[k] == mid[k]);
            assert(mid.subrange(0, pre.len() as int)[k] == pre[k]);
        }
        assert(out@.subrange(0, pre.len() as int) =~= pre);
        assert(more.subrange(0, n) =~= mid.subrange(pre.len() as int, mid.len() as int));
        assert(more[n] == mid2.last());
        assert(more.subrange(n + 1, more.len() as int) =~= out@.subrange(mid2.len() as int, out@.len() as int));
        if sm.1 {
            assert(mid.subrange(pre.len() as int, mid.len() as int) =~= Seq::<Token>::empty());
        } else {
            assert(mid.subrange(pre.len() as int, mid.len() as int) =~= entry_open(sa.0.last()));
            assert(sa.0.drop_last() =~= sm.0);
        }
        assert(begun(sm, style, base@, sa, more.subrange(0, n)));
        assert(text_token(more[n], sa.1, label@));
        assert(more.subrange(n + 1, more.len() as int) == pop_tokens(sa));
        assert(stack_view(*stack) == after_pop(sa));
        assert(linked_text(sm, href, base@, label@, stack_view(*stack), more));
    }
}

/// Appends the tokens of one part of a run.
fn write_part(stack: &mut StyleStack, part: &TextPart, base: &str, out: &mut Vec<Token>)
    requires
        old(stack).emitted(old(out)@),
        !old(stack).in_code ==> old(stack).nested == 0,
        old(stack).nested < usize::MAX,
    ensures
        final(stack).emitted(final(out)@),
        (final(stack).in_code, final(stack).nested as nat) == code_step((old(stack).in_code, old(stack).nested as nat), *part),
        final(stack).nested <= old(stack).nested + 1,
        visible(final(out)@) == visible(old(out)@) + shown_part(old(stack).in_code, *part),
        final(out)@.len() >= old(out)@.len(),
        final(out)@.subrange(0, old(out)@.len() as int) == old(out)@,
        part_written(
            stack_view(*old(stack)),
            *part,
            base@,
            stack_view(*final(stack)),
            final(out)@.subrange(old(out)@.len() as int, final(out)@.len() as int),
        ),
{
    let ghost pre = out@;
    let ghost sm = stack_view(*stack);
    match part {
        TextPart::Text(t) => {
            write_text(stack, t.as_str(), out);
            proof {
                let more = out@.subrange(pre.len() as int, out@.len() as int);
                assert(more =~= seq![out@.last()]);
                assert(out@.subrange(0, pre.len() as int) =~= pre);
            }
        },
        TextPart::Image(src) => {
            write_linked(stack, src.clone(), "(image)", base, out);
        },
        TextPart::Table => {
            proof {
                reveal_strlit("(table)");
            }
            let href = String::from_str(base);
            write_linked(stack, href, "(table)", base, out);
        },
        TextPart::BeginStyle(style) => {
            stack.push(style, base, out);
            proof {
                let more = out@.subrange(pre.len() as int, out@.len() as int);
                if sm.1 {
                    assert(more =~= Seq::<Token>::empty());
                } else if style is Monospaced {
                    assert(more =~= close_tokens(sm.0) + seq![Token::Open(Tag::Code)]);
                } else {
                    assert(more =~= entry_open(stack.entries@.last()));
                }
                assert(out@.subrange(0, pre.len() as int) =~= pre);
            }
        },
        TextPart::EndStyle => {
            stack.pop(out);
            proof {
                let more = out@.subrange(pre.len() as int, out@.len() as int);
                assert(more =~= pop_tokens(sm));
                assert(out@.subrange(0, pre.len() as int) =~= pre);
            }
        },
    }
}

/// Appends the tokens of an inline run under the styles of `stack`.
pub fn write_run(stack: &mut StyleStack, run: &Vec<TextPart>, base: &str, out: &mut Vec<Token>)
    requires
        old(stack).emitted(old(out)@),
        old(stack).nested == 0,
    ensures
        final(stack).emitted(final(out)@),
        (final(stack).in_code, final(stack).nested as nat) == code_after((old(stack).in_code, 0), run@),
        visible(final(out)@) == visible(old(out)@) + shown((old(stack).in_code, 0), run@),
        final(out)@.len() >= old(out)@.len(),
        final(out)@.subrange(0, old(out)@.len() as int) == old(out)@,
        run_written(
            stack_view(*old(stack)),
            run@,
            base@,
            stack_view(*final(stack)),
            final(out)@.subrange(old(out)@.len() as int, final(out)@.len() as int),
        ),
{
    let ghost start = (stack.in_code, 0nat);
    let ghost s_start = stack_view(*stack);
    let ghost out0 = visible(out@);
    let ghost o0 = out@;
    let ghost mut toks: Seq<Token> = Seq::empty();
    let ghost mut states: Seq<StackView> = seq![s_start];
    let ghost mut cuts: Seq<int> = seq![0int];
    let mut i: usize = 0;
    assert(run@.subrange(0, 0) =~= Seq::<TextPart>::empty());
    assert(out@ =~= o0 + toks);
    proof {
        lemma_written_start(s_start, run@, base@);
    }
    while i < run.len()
        invariant
            i <= run@.len(),
            stack.emitted(out@),
            stack.nested <= i,
            !stack.in_code ==> stack.nested == 0,
            (stack.in_code, stack.nested as nat) == code_after(start, run@.subrange(0, i as int)),
            visible(out@) == out0 + shown(start, run@.subrange(0, i as int)),
            out@ == o0 + toks,
            written_upto(s_start, run@, base@, states, cuts, toks, i as int),
            states.last() == stack_view(*stack),
            states.len() == i + 1,
        decreases run@.len() - i,
    {
        proof {
            lemma_shown_step(start, run@, i as int);
        }
        let ghost pre = out@;
        let ghost sm = stack_view(*stack);
        write_part(stack, &run[i], base, out);
        proof {
            let more = out@.subrange(pre.len() as int, out@.len() as int);
            assert(out@ =~= pre + more);
            assert(states[i as int] == sm);
            assert(part_written(sm, run@[i as int], base@, stack_view(*stack), more));
            lemma_written_step(s_start, run@, base@, states, cuts, toks, i as int, stack_view(*stack), more);
            states = states.push(stack_view(*stack));
            cuts = cuts.push((toks.len() + more.len()) as int);
            toks = toks + more;
            assert(out@ =~= o0 + toks);
        }
        i = i + 1;
    }
    assert(run@.subrange(0, i as int) =~= run@);
    assert(out@.subrange(0, o0.len() as int) =~= o0);
    assert(out@.subrange(o0.len() as int, out@.len() as int) =~= toks);
    assert(written_upto(s_start, run@, base@, states, cuts, toks, run@.len() as int));
}

/// The tokens of a run rendered on its own: it starts with no open style and
/// every style still open at its end is closed.
pub fn render_run(run: &Vec<TextPart>, base: &str) -> (r: Vec<Token>)
    ensures
        balanced(r@),
        visible(r@) == shown((false, 0), run@),
        exists|s1: StackView, t: Seq<Token>|
            #[trigger] run_written((Seq::empty(), false, 0nat), run@, base@, s1, t) && r@ == t + finish_tokens(s1),
{
    let mut out: Vec<Token> = Vec::new();
    let mut stack = StyleStack::new();
    assert(stack_view(stack) =~= (Seq::<Option<Tag>>::empty(), false, 0nat));
    write_run(&mut stack, run, base, &mut out);
    let ghost s1 = stack_view(stack);
    let ghost t = out@;
    assert(out@.subrange(0, 0) =~= Seq::<Token>::empty());
    assert(out@.subrange(0, out@.len() as int) =~= out@);
    stack.finish(&mut out);
    assert(run_written((Seq::empty(), false, 0nat), run@, base@, s1, t) && out@ == t + finish_tokens(s1));
    out
}

/// The tokens of a code block: the run inside a code span.
pub fn render_code(run: &Vec<TextPart>, base: &str) -> (r: Vec<Token>)
    ensures
        balanced(r@),
        visible(r@) == shown((true, 0), run@),
        exists|s1: StackView, t: Seq<Token>|
            #[trigger] run_written((Seq::empty(), true, 0nat), run@, base@, s1, t) && r@ == seq![Token::Open(Tag::Code)]
                + t + pop_tokens(s1) + finish_tokens(after_pop(s1)),
{
    let mut out: Vec<Token> = Vec::new();
    let mut stack = StyleStack::new();
    let ghost e0 = stack.entries@;
    stack.push(&TextStyle::Monospaced, base, &mut out);
    let ghost o1 = out@;
    assert(close_tokens(e0) =~= Seq::<Token>::empty());
    assert(o1 =~= Seq::<Token>::empty() + close_tokens(e0) + seq![Token::Open(Tag::Code)]);
    assert(o1 =~= seq![Token::Open(Tag::Code)]);
    assert(stack_view(stack) =~= (Seq::<Option<Tag>>::empty(), true, 0nat));
    write_run(&mut stack, run, base, &mut out);
    let ghost s1 = stack_view(stack);
    let ghost t = out@.subrange(o1.len() as int, out@.len() as int);
    assert(out@ =~= o1 + t);
    stack.pop(&mut out);
    assert(stack_view(stack) == after_pop(s1));
    stack.finish(&mut out);
    assert(out@ =~= seq![Token::Open(Tag::Code)] + t + pop_tokens(s1) + finish_tokens(after_pop(s1)));
    assert(run_written((Seq::empty(), true, 0nat), run@, base@, s1, t));
    out
}

/// Appends `b` to `a`.
pub fn extend_tokens(a: &mut Vec<Token>, b: Vec<Token>)
    ensures
        final(a)@ == old(a)@ + b@,
{
    let mut b = b;
    a.append(&mut b);
}

/// The tokens of a bulleted list: one bullet line per item.
pub fn render_list(items: &Vec<Vec<TextPart>>, base: &str) -> (r: Vec<Token>)
    ensures
        balanced(r@),
        visible(r@) == list_text(items@),
{
    let mut out: Vec<Token> = Vec::new();
    let mut i: usize = 0;
    assert(items@.subrange(0, 0) =~= Seq::<Vec<TextPart>>::empty());
    while i < items.len()
        invariant
            i <= items@.len(),
            balanced(out@),
            visible(out@) == list_text(items@.subrange(0, i as int)),
        decreases items@.len() - i,
    {
        let ghost before = out@;
        let mut item: Vec<Token> = Vec::new();
        if i > 0 {
            item.push(Token::Break);
        }
        item.push(Token::Text(String::from_str("\u{2022} ")));
        assert(balanced(item@)) by {
            reveal_with_fuel(open_after, 3);
            if i > 0 {
                assert(item@.drop_last().drop_last() =~= Seq::<Token>::empty());
                assert(item@.drop_last().len() == 1);
            } else {
                assert(item@.drop_last() =~= Seq::<Token>::empty());
            }
        }
        let ghost head = item@;
        assert(visible(head) == (if i > 0 { seq!['\n'] } else { Seq::<char>::empty() }) + "\u{2022} "@) by {
            reveal_with_fuel(visible, 3);
            if i > 0 {
                assert(head.drop_last().drop_last() =~= Seq::<Token>::empty());
            } else {
                assert(head.drop_last() =~= Seq::<Token>::empty());
            }
            assert(Seq::<char>::empty() + seq!['\n'] =~= seq!['\n']);
            assert(Seq::<char>::empty() + "\u{2022} "@ =~= "\u{2022} "@);
        }
        let body = render_run(&items[i], base);
        proof {
            lemma_balanced_concat(item@, body@);
            lemma_visible_concat(item@, body@);
        }
        extend_tokens(&mut item, body);
        proof {
            lemma_balanced_concat(out@, item@);
            lemma_visible_concat(out@, item@);
            assert(items@.subrange(0, i + 1).drop_last() =~= items@.subrange(0, i as int));
            assert(list_text(items@.subrange(0, i + 1)) =~= visible(before) + visible(item@));
        }
        extend_tokens(&mut out, item);
        i = i + 1;
    }
    assert(items@.subrange(0, i as int) =~= items@);
    out
}

} // verus!
