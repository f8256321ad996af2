use vstd::prelude::*;
use vstd::string::*;
use crate::text::{chars_of, is_lowercase, lowercase_char, string_of, white_space};

verus! {

/// A path to a documented item: a crate, the modules inside it, and the item.
#[derive(Debug, Clone)]
pub struct DocPath {
    pub crate_name: String,
    pub modules: Vec<String>,
    pub item_name: String,
}

/// A path as plain text: the crate, the modules, the item.
pub type DocPathView = (Seq<char>, Seq<Seq<char>>, Seq<char>);

impl View for DocPath {
    type V = DocPathView;

    open spec fn view(&self) -> DocPathView {
        (self.crate_name@, self.modules@.map_values(|m: String| m@), self.item_name@)
    }
}

#[derive(Debug, Clone, Copy, PartialEq, Eq)]
pub enum DocPathParseError {
    Empty,
    InvalidCharAt(usize),
}

/// Crates whose documentation lives on the Rust project's own site.
pub open spec fn is_std_crate(name: Seq<char>) -> bool {
    name == seq!['s', 't', 'd'] || name == seq!['c', 'o', 'r', 'e']
        || name == seq!['a', 'l', 'l', 'o', 'c'] || name == seq!['t', 'e', 's', 't']
        || name == seq!['p', 'r', 'o', 'c', '_', 'm', 'a', 'c', 'r', 'o']
}

pub open spec fn joined_modules(mods: Seq<String>) -> Seq<char>
    decreases mods.len(),
{
    if mods.len() == 0 {
        Seq::empty()
    } else {
        joined_modules(mods.drop_last()) + mods.last()@ + seq!['/']
    }
}

/// The directory under which the item's page lies.
pub open spec fn base_url(p: DocPath) -> Seq<char> {
    (if is_std_crate(p.crate_name@) {
        "https://doc.rust-lang.org/"@
    } else {
        "https://docs.rs/"@ + p.crate_name@ + "/*/"@
    }) + joined_modules(p.modules@)
}

/// The page of an item of the given kind: `<base><kind>.<item>.html`.
pub open spec fn kind_url(base: Seq<char>, kind: Seq<char>, item: Seq<char>) -> Seq<char> {
    base + kind + seq!['.'] + item + ".html"@
}

/// The kinds of item in the order they are tried, lowercase names first
/// trying the kinds that are usually lowercase.
pub open spec fn kinds_tried(is_std: bool, lower: bool) -> Seq<Seq<char>> {
    let value_kinds = seq![Seq::<char>::empty(), "fn"@, "macro"@, "attr"@]
        + (if is_std { seq!["keyword"@, "primitive"@] } else { Seq::empty() });
    let type_kinds = seq!["struct"@, "trait"@, "enum"@, "derive"@, "union"@];
    if lower { value_kinds + type_kinds } else { type_kinds + value_kinds }
}

/// The page for one kind; the empty kind is a module's directory.
pub open spec fn candidate_url(base: Seq<char>, kind: Seq<char>, item: Seq<char>) -> Seq<char> {
    if kind.len() == 0 { base + item } else { kind_url(base, kind, item) }
}

/// Every page that may document the item, in the order to try them.
pub open spec fn candidate_urls(p: DocPath) -> Seq<Seq<char>> {
    let lower = p.item_name@.len() > 0 && lowercase_char(p.item_name@[0]);
    kinds_tried(is_std_crate(p.crate_name@), lower).map_values(
        |k: Seq<char>| candidate_url(base_url(p), k, p.item_name@),
    )
}

/// Characters a path segment may hold.
pub open spec fn allowed_path_char(c: char) -> bool {
    ('a' <= c && c <= 'z') || ('A' <= c && c <= 'Z') || ('0' <= c && c <= '9') || c == '_'
        || c == '-'
}

pub fn is_not_allowed_path_chat(c: char) -> (r: bool)
    ensures
        r == !allowed_path_char(c),
{
    !(('a' <= c && c <= 'z') || ('A' <= c && c <= 'Z') || ('0' <= c && c <= '9') || c == '_'
        || c == '-')
}

fn same_chars(a: &Vec<char>, b: &Vec<char>) -> (r: bool)
    ensures
        r == (a@ == b@),
{
    if a.len() != b.len() {
        return false;
    }
    let mut i: usize = 0;
    while i < a.len()
        invariant
            a@.len() == b@.len(),
            i <= a@.len(),
            forall|j: int| 0 <= j < i ==> a@[j] == b@[j],
        decreases a@.len() - i,
    {
        if a[i] != b[i] {
            return false;
        }
        i = i + 1;
    }
    assert(a@ =~= b@);
    true
}

fn same_string(a: &String, b: &String) -> (r: bool)
    ensures
        r == (a@ == b@),
{
    let x = chars_of(a.as_str());
    let y = chars_of(b.as_str());
    same_chars(&x, &y)
}

/// Whether two paths name the same item.
pub fn same_path(a: &DocPath, b: &DocPath) -> (r: bool)
    ensures
        r == (a@ == b@),
{
    if !same_string(&a.crate_name, &b.crate_name) || !same_string(&a.item_name, &b.item_name) {
        return false;
    }
    if a.modules.len() != b.modules.len() {
        assert(a@.1.len() != b@.1.len());
        return false;
    }
    let mut i: usize = 0;
    while i < a.modules.len()
        invariant
            a.modules@.len() == b.modules@.len(),
            i <= a.modules@.len(),
            forall|j: int| 0 <= j < i ==> (#[trigger] a.modules@[j])@ == b.modules@[j]@,
        decreases a.modules@.len() - i,
    {
        if !same_string(&a.modules[i], &b.modules[i]) {
            assert(a@.1[i as int] != b@.1[i as int]);
            return false;
        }
        i = i + 1;
    }
    assert(a@.1 =~= b@.1);
    true
}

fn is_std_name(name: &String) -> (r: bool)
    ensures
        r == is_std_crate(name@),
{
    let c = chars_of(name.as_str());
    let std_name = vec!['s', 't', 'd'];
    let core_name = vec!['c', 'o', 'r', 'e'];
    let alloc_name = vec!['a', 'l', 'l', 'o', 'c'];
    let test_name = vec!['t', 'e', 's', 't'];
    let pm_name = vec!['p', 'r', 'o', 'c', '_', 'm', 'a', 'c', 'r', 'o'];
    let r = same_chars(&c, &std_name) || same_chars(&c, &core_name) || same_chars(&c, &alloc_name)
        || same_chars(&c, &test_name) || same_chars(&c, &pm_name);
    assert(std_name@ =~= seq!['s', 't', 'd']);
    assert(core_name@ =~= seq!['c', 'o', 'r', 'e']);
    assert(alloc_name@ =~= seq!['a', 'l', 'l', 'o', 'c']);
    assert(test_name@ =~= seq!['t', 'e', 's', 't']);
    assert(pm_name@ =~= seq!['p', 'r', 'o', 'c', '_', 'm', 'a', 'c', 'r', 'o']);
    r
}

impl DocPath {
    /// The candidate pages for this item, most likely first.
    pub fn docs_url(&self) -> (r: Vec<String>)
        ensures
            r@.len() == candidate_urls(*self).len(),
            forall|i: int| 0 <= i < r@.len() ==> #[trigger] r@[i]@ == candidate_urls(*self)[i],
    {
        let is_std = is_std_name(&self.crate_name);
        let mut base = String::new();
        if is_std {
            base.append("https://doc.rust-lang.org/");
        } else {
            base.append("https://docs.rs/");
            base.append(self.crate_name.as_str());
            base.append("/*/");
        }
        let ghost start = base@;
        let mut i: usize = 0;
        while i < self.modules.len()
            invariant
                i <= self.modules@.len(),
                base@ == start + joined_modules(self.modules@.subrange(0, i as int)),
            decreases self.modules@.len() - i,
        {
            base.append(self.modules[i].as_str());
            base.append("/");
            proof {
                reveal_strlit("/");
                assert(self.modules@.subrange(0, i + 1).drop_last() =~= self.modules@.subrange(0, i as int));
            }
            i = i + 1;
        }
        assert(self.modules@.subrange(0, i as int) =~= self.modules@);
        let base = base;
        assert(base@ == base_url(*self)) by {
            reveal_strlit("/");
        }
        let lower = self.item_name.as_str().unicode_len() > 0
            && is_lowercase(self.item_name.as_str().get_char(0));
        let mut candidates: Vec<String> = Vec::new();
        if lower {
            candidates.push(self.module_url(&base));
            candidates.push(self.function_url(&base));
            candidates.push(self.macro_url(&base));
            candidates.push(self.attribute_url(&base));
            if is_std {
                candidates.push(self.keyword_url(&base));
                candidates.push(self.primitive_url(&base));
            }
            candidates.push(self.struct_url(&base));
            candidates.push(self.trait_url(&base));
            candidates.push(self.enum_url(&base));
            candidates.push(self.derive_url(&base));
            candidates.push(self.union_url(&base));
        } else {
            candidates.push(self.struct_url(&base));
            candidates.push(self.trait_url(&base));
            candidates.push(self.enum_url(&base));
            candidates.push(self.derive_url(&base));
            candidates.push(self.union_url(&base));
            candidates.push(self.module_url(&base));
            candidates.push(self.function_url(&base));
            candidates.push(self.macro_url(&base));
            candidates.push(self.attribute_url(&base));
            if is_std {
                candidates.push(self.keyword_url(&base));
                candidates.push(self.primitive_url(&base));
            }
        }
        proof {
            reveal_strlit("fn");
            reveal_strlit("macro");
            reveal_strlit("attr");
            reveal_strlit("keyword");
            reveal_strlit("primitive");
            reveal_strlit("struct");
            reveal_strlit("trait");
            reveal_strlit("enum");
            reveal_strlit("derive");
            reveal_strlit("union");
            let v = candidates@.map_values(|s: String| s@);
            assert(v =~= candidate_urls(*self));
            assert forall|i: int| 0 <= i < candidates@.len() implies #[trigger] candidates@[i]@
                == candidate_urls(*self)[i] by {
                assert(v[i] == candidates@[i]@);
            }
        }
        candidates
    }

    fn kind_page(&self, base: &String, kind: &str) -> (r: String)
        ensures
            r@ == kind_url(base@, kind@, self.item_name@),
    {
        let mut s = base.clone();
        s.append(kind);
        s.append(".");
        s.append(self.item_name.as_str());
        s.append(".html");
        proof {
            reveal_strlit(".");
        }
        s
    }

    fn module_url(&self, base_url: &String) -> (r: String)
        ensures
            r@ == base_url@ + self.item_name@,
    {
        let mut s = base_url.clone();
        s.append(self.item_name.as_str());
        s
    }

    fn function_url(&self, base_url: &String) -> (r: String)
        ensures
            r@ == kind_url(base_url@, "fn"@, self.item_name@),
    {
        self.kind_page(base_url, "fn")
    }

    fn macro_url(&self, base_url: &String) -> (r: String)
        ensures
            r@ == kind_url(base_url@, "macro"@, self.item_name@),
    {
        self.kind_page(base_url, "macro")
    }

    fn attribute_url(&self, base_url: &String) -> (r: String)
        ensures
            r@ == kind_url(base_url@, "attr"@, self.item_name@),
    {
        self.kind_page(base_url, "attr")
    }

    fn keyword_url(&self, base_url: &String) -> (r: String)
        ensures
            r@ == kind_url(base_url@, "keyword"@, self.item_name@),
    {
        self.kind_page(base_url, "keyword")
    }

    fn primitive_url(&self, base_url: &String) -> (r: String)
        ensures
            r@ == kind_url(base_url@, "primitive"@, self.item_name@),
    {
        self.kind_page(base_url, "primitive")
    }

    fn struct_url(&self, base_url: &String) -> (r: String)
        ensures
            r@ == kind_url(base_url@, "struct"@, self.item_name@),
    {
        self.kind_page(base_url, "struct")
    }

    fn trait_url(&self, base_url: &String) -> (r: String)
        ensures
            r@ == kind_url(base_url@, "trait"@, self.item_name@),
    {
        self.kind_page(base_url, "trait")
    }

    fn enum_url(&self, base_url: &String) -> (r: String)
        ensures
            r@ == kind_url(base_url@, "enum"@, self.item_name@),
    {
        self.kind_page(base_url, "enum")
    }

    fn derive_url(&self, base_url: &String) -> (r: String)
        ensures
            r@ == kind_url(base_url@, "derive"@, self.item_name@),
    {
        self.kind_page(base_url, "derive")
    }

    fn union_url(&self, base_url: &String) -> (r: String)
        ensures
            r@ == kind_url(base_url@, "union"@, self.item_name@),
    {
        self.kind_page(base_url, "union")
    }
}

/// Relies on `char::is_whitespace`: the Unicode `White_Space` property.
#[verifier::external_body]
fn is_whitespace(c: char) -> (r: bool)
    ensures
        r == white_space(c),
{
    c.is_whitespace()
}

pub open spec fn trim_front(s: Seq<char>) -> Seq<char>
    decreases s.len(),
{
    if s.len() > 0 && white_space(s[0]) { trim_front(s.skip(1)) } else { s }
}

pub open spec fn trim_back(s: Seq<char>) -> Seq<char>
    decreases s.len(),
{
    if s.len() > 0 && white_space(s.last()) { trim_back(s.drop_last()) } else { s }
}

/// The text without leading and trailing whitespace.
pub open spec fn trimmed(s: Seq<char>) -> Seq<char> {
    trim_back(trim_front(s))
}

/// The pieces of `s` between the separators `::`, read from the left.
pub open spec fn segments(s: Seq<char>) -> Seq<Seq<char>>
    decreases s.len(),
{
    if s.len() == 0 {
        seq![Seq::empty()]
    } else if s.len() >= 2 && s[0] == ':' && s[1] == ':' {
        seq![Seq::<char>::empty()] + segments(s.skip(2))
    } else {
        let r = segments(s.skip(1));
        r.update(0, seq![s[0]] + r[0])
    }
}

/// Where the first character that a segment may not hold stands.
pub open spec fn first_invalid(seg: Seq<char>) -> Option<nat>
    decreases seg.len(),
{
    if seg.len() == 0 {
        None
    } else if !allowed_path_char(seg[0]) {
        Some(0)
    } else {
        match first_invalid(seg.skip(1)) {
            Some(i) => Some(i + 1),
            None => None,
        }
    }
}

/// The first invalid character of the first segment that holds one.
pub open spec fn first_bad(segs: Seq<Seq<char>>) -> Option<nat>
    decreases segs.len(),
{
    if segs.len() == 0 {
        None
    } else {
        match first_invalid(segs[0]) {
            Some(i) => Some(i),
            None => first_bad(segs.skip(1)),
        }
    }
}

pub open spec fn dash_to_underscore(s: Seq<char>) -> Seq<char> {
    s.map_values(|c: char| if c == '-' { '_' } else { c })
}

/// What a path in text reads as: the crate, then the modules, the crate's
/// own name first, then the item, with `-` read as `_` past the crate.
pub open spec fn parsed_path(s: Seq<char>) -> Result<DocPathView, DocPathParseError> {
    let t = trimmed(s);
    let segs = segments(t);
    if first_bad(segs) is Some {
        Err(DocPathParseError::InvalidCharAt(first_bad(segs).unwrap() as usize))
    } else if segs.len() == 1 {
        Ok((segs[0], Seq::empty(), segs[0]))
    } else {
        Ok((
            segs[0],
            seq![segs[0]] + segs.subrange(1, segs.len() - 1).map_values(|m: Seq<char>| dash_to_underscore(m)),
            dash_to_underscore(segs.last()),
        ))
    }
}

proof fn lemma_segments_nonempty(s: Seq<char>)
    ensures
        segments(s).len() >= 1,
    decreases s.len(),
{
    if s.len() >= 2 && s[0] == ':' && s[1] == ':' {
        lemma_segments_nonempty(s.skip(2));
    } else if s.len() > 0 {
        lemma_segments_nonempty(s.skip(1));
    }
}

fn trim_chars(s: &Vec<char>) -> (r: Vec<char>)
    ensures
        r@ == trimmed(s@),
{
    let mut a: usize = 0;
    assert(s@.skip(0) =~= s@);
    while a < s.len() && is_whitespace(s[a])
        invariant
            a <= s@.len(),
            trim_front(s@) == trim_front(s@.skip(a as int)),
        decreases s@.len() - a,
    {
        assert(s@.skip(a as int).skip(1) =~= s@.skip(a + 1));
        a = a + 1;
    }
    let ghost front = s@.skip(a as int);
    assert(trim_front(front) == front);
    let mut b: usize = s.len();
    while b > a && is_whitespace(s[b - 1])
        invariant
            a <= b <= s@.len(),
            trim_back(front) == trim_back(s@.subrange(a as int, b as int)),
            front == s@.skip(a as int),
        decreases b,
    {
        assert(s@.subrange(a as int, b as int).drop_last() =~= s@.subrange(a as int, b - 1));
        b = b - 1;
    }
    assert(s@.subrange(a as int, s@.len() as int) =~= front);
    let mut r: Vec<char> = Vec::new();
    let mut i: usize = a;
    while i < b
        invariant
            a <= i <= b,
            b <= s@.len(),
            r@ == s@.subrange(a as int, i as int),
        decreases b - i,
    {
        r.push(s[i]);
        assert(r@ =~= s@.subrange(a as int, i + 1));
        i = i + 1;
    }
    r
}

pub open spec fn seg_views(v: Seq<Vec<char>>) -> Seq<Seq<char>> {
    v.map_values(|x: Vec<char>| x@)
}

fn split_segments(s: &Vec<char>) -> (r: Vec<Vec<char>>)
    ensures
        seg_views(r@) == segments(s@),
{
    let mut done: Vec<Vec<char>> = Vec::new();
    let mut cur: Vec<char> = Vec::new();
    let mut i: usize = 0;
    proof {
        lemma_segments_nonempty(s@);
        assert(s@.skip(0) =~= s@);
        assert(seg_views(done@) + seq![cur@ + segments(s@)[0]] + segments(s@).skip(1) =~= segments(s@));
    }
    while i < s.len()
        invariant
            i <= s@.len(),
            segments(s@) == seg_views(done@) + seq![cur@ + segments(s@.skip(i as int))[0]]
                + segments(s@.skip(i as int)).skip(1),
        decreases s@.len() - i,
    {
        let ghost rest = s@.skip(i as int);
        if i + 1 < s.len() && s[i] == ':' && s[i + 1] == ':' {
            proof {
                assert(rest[0] == ':' && rest[1] == ':');
                assert(rest.skip(2) =~= s@.skip(i + 2));
                lemma_segments_nonempty(rest.skip(2));
            }
            let ghost dv = seg_views(done@);
            let ghost cv = cur@;
            done.push(cur);
            cur = Vec::new();
            proof {
                let r2 = segments(s@.skip(i + 2));
                assert(segments(rest) == seq![Seq::<char>::empty()] + r2);
                assert(seg_views(done@) =~= dv.push(cv));
                assert(cur@ + r2[0] =~= r2[0]);
                assert((seq![Seq::<char>::empty()] + r2)[0] == Seq::<char>::empty());
                assert((seq![Seq::<char>::empty()] + r2).skip(1) =~= r2);
                assert(cv + Seq::<char>::empty() =~= cv);
                assert(seg_views(done@) + seq![cur@ + r2[0]] + r2.skip(1) =~= dv + seq![cv] + r2);
                assert(r2 =~= seq![r2[0]] + r2.skip(1));
            }
            i = i + 2;
        } else {
            proof {
                assert(rest.skip(1) =~= s@.skip(i + 1));
                lemma_segments_nonempty(rest.skip(1));
                assert(!(rest.len() >= 2 && rest[0] == ':' && rest[1] == ':'));
            }
            let ghost cv = cur@;
            let c = s[i];
            cur.push(c);
            proof {
                let r1 = segments(s@.skip(i + 1));
                assert(segments(rest) == r1.update(0, seq![c] + r1[0]));
                assert(cur@ + r1[0] =~= cv + (seq![c] + r1[0]));
                assert(r1.update(0, seq![c] + r1[0]).skip(1) =~= r1.skip(1));
            }
            i = i + 1;
        }
    }
    proof {
        assert(s@.skip(i as int) =~= Seq::<char>::empty());
        assert(cur@ + Seq::<char>::empty() =~= cur@);
    }
    let ghost dv = seg_views(done@);
    done.push(cur);
    assert(seg_views(done@) =~= segments(s@));
    done
}

pub open spec fn shifted(o: Option<nat>, k: nat) -> Option<nat> {
    match o {
        Some(x) => Some(x + k),
        None => None,
    }
}

fn find_invalid(seg: &Vec<char>) -> (r: Option<usize>)
    ensures
        shifted(first_invalid(seg@), 0) == match r {
            Some(i) => Some(i as nat),
            None => None::<nat>,
        },
{
    let mut i: usize = 0;
    assert(seg@.skip(0) =~= seg@);
    while i < seg.len()
        invariant
            i <= seg@.len(),
            first_invalid(seg@) == shifted(first_invalid(seg@.skip(i as int)), i as nat),
        decreases seg@.len() - i,
    {
        let ghost rest = seg@.skip(i as int);
        if is_not_allowed_path_chat(seg[i]) {
            assert(rest[0] == seg@[i as int]);
            return Some(i);
        }
        assert(rest.skip(1) =~= seg@.skip(i + 1));
        i = i + 1;
    }
    assert(seg@.skip(i as int) =~= Seq::<char>::empty());
    None
}

fn underscored(seg: &Vec<char>) -> (r: String)
    ensures
        r@ == dash_to_underscore(seg@),
{
    let mut out: Vec<char> = Vec::new();
    let mut i: usize = 0;
    while i < seg.len()
        invariant
            i <= seg@.len(),
            out@ == dash_to_underscore(seg@.subrange(0, i as int)),
        decreases seg@.len() - i,
    {
        let c = seg[i];
        out.push(if c == '-' { '_' } else { c });
        assert(out@ =~= dash_to_underscore(seg@.subrange(0, i + 1)));
        i = i + 1;
    }
    assert(seg@.subrange(0, i as int) =~= seg@);
    string_of(&out)
}

impl DocPath {
    /// Reads `crate::module::item`, ignoring whitespace around it. A blank
    /// path reads as one empty segment, which is a valid crate name.
    pub fn parse(value: &str) -> (r: Result<DocPath, DocPathParseError>)
        ensures
            match r {
                Ok(p) => parsed_path(value@) == Ok::<DocPathView, DocPathParseError>(p@),
                Err(e) => parsed_path(value@) == Err::<DocPathView, DocPathParseError>(e),
            },
    {
        let t = trim_chars(&chars_of(value));
        let segs = split_segments(&t);
        let ghost sv = seg_views(segs@);
        proof {
            lemma_segments_nonempty(t@);
            assert(sv.skip(0) =~= sv);
        }
        let mut k: usize = 0;
        while k < segs.len()
            invariant
                sv == seg_views(segs@),
                sv == segments(t@),
                t@ == trimmed(value@),
                k <= segs@.len(),
                first_bad(sv) == first_bad(sv.skip(k as int)),
            decreases segs@.len() - k,
        {
            let ghost rest = sv.skip(k as int);
            match find_invalid(&segs[k]) {
                Some(i) => {
                    assert(rest[0] == segs@[k as int]@);
                    assert(first_invalid(rest[0]) == Some(i as nat));
                    assert(first_bad(rest) == Some(i as nat));
                    return Err(DocPathParseError::InvalidCharAt(i));
                },
                None => {},
            }
            assert(rest[0] == segs@[k as int]@);
            assert(rest.skip(1) =~= sv.skip(k + 1));
            k = k + 1;
        }
        assert(sv.skip(k as int) =~= Seq::<Seq<char>>::empty());
        let n = segs.len();
        let crate_name = string_of(&segs[0]);
        if n == 1 {
            let r = DocPath { crate_name: crate_name.clone(), modules: Vec::new(), item_name: crate_name };
            assert(r@.1 =~= Seq::<Seq<char>>::empty());
            return Ok(r);
        }
        let mut modules: Vec<String> = Vec::new();
        modules.push(crate_name.clone());
        let mut j: usize = 1;
        while j < n - 1
            invariant
                sv == seg_views(segs@),
                n == segs@.len(),
                n >= 2,
                1 <= j <= n - 1,
                modules@.len() == j,
                modules@[0]@ == sv[0],
                forall|x: int| 1 <= x < j ==> (#[trigger] modules@[x])@ == dash_to_underscore(sv[x]),
            decreases n - j,
        {
            modules.push(underscored(&segs[j]));
            j = j + 1;
        }
        assert(modules@.map_values(|m: String| m@) =~= seq![sv[0]] + sv.subrange(1, n - 1).map_values(
            |m: Seq<char>| dash_to_underscore(m),
        ));
        let item_name = underscored(&segs[n - 1]);
        let r = DocPath { crate_name, modules, item_name };
        assert(sv.last() == segs@[n - 1]@);
        Ok(r)
    }
}

} // verus!
