use vstd::prelude::*;
use vstd::string::*;
use crate::ir::{CodeConfig, CodeItem};
use crate::rust_gen::{RenderError, convert, lemma_render_same, render, same_item, text_of};

verus! {

/// Global option key for the number of indent characters per nesting level.
pub const NUM_TABS: &'static str = "num_tabs";

/// Global option key for the indent character.
pub const TAB_CHAR: &'static str = "tab_char";

/// Target languages.
#[derive(Clone, Copy, Debug, PartialEq, Eq, Structural, Hash)]
pub enum Lang {
    Cpp,
    Rust,
}

impl Lang {
    /// The display name of the language.
    pub fn label(&self) -> (r: String)
        ensures
            r@ == (match *self {
                Lang::Cpp => "C/C++"@,
                Lang::Rust => "Rust"@,
            }),
    {
        match *self {
            Lang::Cpp => "C/C++".to_owned(),
            Lang::Rust => "Rust".to_owned(),
        }
    }
}

/// Why a configuration is rejected.
#[derive(Clone, Copy, Debug, PartialEq, Eq, Structural)]
pub enum ConfigError {
    /// The indent width is not a decimal number from 0 to 255.
    InvalidIndentWidth,
    /// The indent character option is empty.
    EmptyIndentChar,
}

/// A rendering job: a target language, a private, substituted copy of the
/// tree, and the resolved indentation.
pub struct FormattedCode {
    pub language: Lang,
    pub elements: Vec<CodeItem>,
    pub num_tabs: u8,
    pub tab_char: char,
}

/// `v` after one dictionary entry `k -> r`: replaced only on exact equality.
pub open spec fn subst_entry(v: Seq<char>, k: Seq<char>, r: Seq<char>) -> Seq<char> {
    if v == k {
        r
    } else {
        v
    }
}

/// `v` after every entry of `dict`, in order.
pub open spec fn subst_dict(v: Seq<char>, dict: Seq<(String, String)>) -> Seq<char>
    decreases dict.len(),
{
    if dict.len() == 0 {
        v
    } else {
        subst_entry(subst_dict(v, dict.drop_last()), dict.last().0@, dict.last().1@)
    }
}

/// `v` after the type dictionary and then the name dictionary.
pub open spec fn subst_value(v: Seq<char>, td: Seq<(String, String)>, nd: Seq<(String, String)>) -> Seq<
    char,
> {
    subst_dict(subst_dict(v, td), nd)
}

/// `n` is `o` with every attribute value substituted, everywhere in the tree.
pub open spec fn mapped(o: CodeItem, n: CodeItem, td: Seq<(String, String)>, nd: Seq<(String, String)>) -> bool
    decreases o,
{
    &&& n.kind == o.kind
    &&& n.attributes@.len() == o.attributes@.len()
    &&& forall|i: int|
        0 <= i < o.attributes@.len() ==> (#[trigger] n.attributes@[i]).0 == o.attributes@[i].0
            && n.attributes@[i].1@ == subst_value(o.attributes@[i].1@, td, nd)
    &&& n.children@.len() == o.children@.len()
    &&& forall|i: int|
        0 <= i < o.children@.len() ==> mapped(o.children@[i], #[trigger] n.children@[i], td, nd)
}

/// `ns` is `os` with every tree substituted.
pub open spec fn all_mapped(
    os: Seq<CodeItem>,
    ns: Seq<CodeItem>,
    td: Seq<(String, String)>,
    nd: Seq<(String, String)>,
) -> bool {
    &&& ns.len() == os.len()
    &&& forall|i: int| 0 <= i < os.len() ==> mapped(os[i], #[trigger] ns[i], td, nd)
}

/// Applies one dictionary to a value.
fn apply_dict(v: String, dict: &Vec<(String, String)>) -> (r: String)
    ensures
        r@ == subst_dict(v@, dict@),
{
    let mut r = v;
    let ghost v0 = r@;
    let mut i: usize = 0;
    while i < dict.len()
        invariant
            0 <= i <= dict.len(),
            r@ == subst_dict(v0, dict@.subrange(0, i as int)),
        decreases dict.len() - i,
    {
        proof {
            assert(dict@.subrange(0, i + 1).drop_last() =~= dict@.subrange(0, i as int));
        }
        if r == dict[i].0 {
            r = dict[i].1.clone();
        }
        i += 1;
    }
    proof {
        assert(dict@.subrange(0, dict.len() as int) =~= dict@);
    }
    r
}

/// A substituted copy of a tree.
fn substitute_item(e: &CodeItem, td: &Vec<(String, String)>, nd: &Vec<(String, String)>) -> (r: CodeItem)
    ensures
        mapped(*e, r, td@, nd@),
    decreases e,
{
    let mut attributes: Vec<(crate::ir::AttrKey, String)> = Vec::new();
    let mut i: usize = 0;
    while i < e.attributes.len()
        invariant
            0 <= i <= e.attributes.len(),
            attributes@.len() == i,
            forall|j: int|
                0 <= j < i ==> (#[trigger] attributes@[j]).0 == e.attributes@[j].0
                    && attributes@[j].1@ == subst_value(e.attributes@[j].1@, td@, nd@),
        decreases e.attributes.len() - i,
    {
        let v = apply_dict(e.attributes[i].1.clone(), td);
        let v = apply_dict(v, nd);
        attributes.push((e.attributes[i].0, v));
        i += 1;
    }
    let mut children: Vec<CodeItem> = Vec::new();
    let mut i: usize = 0;
    while i < e.children.len()
        invariant
            0 <= i <= e.children.len(),
            children@.len() == i,
            forall|j: int| 0 <= j < i ==> mapped(e.children@[j], #[trigger] children@[j], td@, nd@),
        decreases e.children.len() - i,
    {
        let c = substitute_item(&e.children[i], td, nd);
        children.push(c);
        i += 1;
    }
    CodeItem { kind: e.kind, attributes, children }
}

/// Substituted copies of a list of trees.
fn substitute_all(items: &Vec<CodeItem>, td: &Vec<(String, String)>, nd: &Vec<(String, String)>) -> (r: Vec<
    CodeItem,
>)
    ensures
        all_mapped(items@, r@, td@, nd@),
{
    let mut r: Vec<CodeItem> = Vec::new();
    let mut i: usize = 0;
    while i < items.len()
        invariant
            0 <= i <= items.len(),
            r@.len() == i,
            forall|j: int| 0 <= j < i ==> mapped(items@[j], #[trigger] r@[j], td@, nd@),
        decreases items.len() - i,
    {
        r.push(substitute_item(&items[i], td, nd));
        i += 1;
    }
    r
}

/// Whether every character of `s` is an ASCII decimal digit.
pub open spec fn all_digits(s: Seq<char>) -> bool {
    forall|i: int| 0 <= i < s.len() ==> '0' <= #[trigger] s[i] <= '9'
}

/// The number that a string of decimal digits spells.
pub open spec fn digits_value(s: Seq<char>) -> int
    decreases s.len(),
{
    if s.len() == 0 {
        0
    } else {
        digits_value(s.drop_last()) * 10 + (s.last() as u32 - '0' as u32)
    }
}

/// A decimal `u8` as `str::parse` reads it: an optional `+`, then at least
/// one digit, with a value of at most 255.
pub open spec fn parse_u8(s: Seq<char>) -> Option<u8> {
    let d = if s.len() > 0 && s[0] == '+' {
        s.subrange(1, s.len() as int)
    } else {
        s
    };
    if d.len() > 0 && all_digits(d) && digits_value(d) <= 255 {
        Some(digits_value(d) as u8)
    } else {
        None
    }
}

proof fn lemma_digits_value_grows(s: Seq<char>, k: int)
    requires
        0 <= k <= s.len(),
        all_digits(s),
    ensures
        0 <= digits_value(s.subrange(0, k)) <= digits_value(s),
    decreases s.len() - k,
{
    if k < s.len() {
        lemma_digits_value_grows(s, k + 1);
        assert(s.subrange(0, k + 1).drop_last() =~= s.subrange(0, k));
        lemma_digits_value_nonneg(s.subrange(0, k));
    } else {
        assert(s.subrange(0, k) =~= s);
        lemma_digits_value_nonneg(s);
    }
}

proof fn lemma_digits_value_nonneg(s: Seq<char>)
    requires
        all_digits(s),
    ensures
        digits_value(s) >= 0,
    decreases s.len(),
{
    if s.len() > 0 {
        lemma_digits_value_nonneg(s.drop_last());
    }
}

/// Reads a decimal indent width; see `parse_u8`.
pub fn parse_width(s: &str) -> (r: Option<u8>)
    ensures
        r == parse_u8(s@),
{
    let n = s.unicode_len();
    let mut start: usize = 0;
    if n > 0 && s.get_char(0) == '+' {
        start = 1;
    }
    let ghost d = if start == 1 { s@.subrange(1, s@.len() as int) } else { s@ };
    assert(d =~= s@.subrange(start as int, n as int));
    if start == n {
        return None;
    }
    let mut v: u32 = 0;
    let mut i: usize = start;
    while i < n
        invariant
            start <= i <= n,
            n == s@.len(),
            d == s@.subrange(start as int, n as int),
            d == (if s@.len() > 0 && s@[0] == '+' {
                s@.subrange(1, s@.len() as int)
            } else {
                s@
            }),
            all_digits(d.subrange(0, i - start)),
            v as int == digits_value(d.subrange(0, i - start)),
            v <= 255,
        decreases n - i,
    {
        let c = s.get_char(i);
        if c < '0' || c > '9' {
            assert(!all_digits(d)) by {
                assert(d[i - start] == c);
            }
            return None;
        }
        proof {
            let sub = d.subrange(0, i - start + 1);
            assert(sub.drop_last() =~= d.subrange(0, i - start));
            assert(sub.last() == c);
            assert(all_digits(sub)) by {
                assert forall|j: int| 0 <= j < sub.len() implies '0' <= #[trigger] sub[j] <= '9' by {
                    if j < sub.len() - 1 {
                        assert(sub[j] == d.subrange(0, i - start)[j]);
                    }
                }
            }
        }
        v = v * 10 + (c as u32 - '0' as u32);
        i += 1;
        if v > 255 {
            proof {
                if all_digits(d) {
                    lemma_digits_value_grows(d, i - start);
                }
            }
            return None;
        }
    }
    assert(d.subrange(0, n - start) =~= d);
    Some(v as u8)
}

/// The indent width and character that a global option list yields, later
/// entries overriding earlier ones, starting from width 4 and a space.
/// Unrecognized keys are ignored; the first invalid value rejects the list.
pub open spec fn options_of(g: Seq<(String, String)>) -> Result<(u8, char), ConfigError>
    decreases g.len(),
{
    if g.len() == 0 {
        Ok((4u8, ' '))
    } else {
        match options_of(g.drop_last()) {
            Err(e) => Err(e),
            Ok((w, c)) => {
                let k = g.last().0@;
                let v = g.last().1@;
                if k == NUM_TABS@ {
                    match parse_u8(v) {
                        Some(n) => Ok((n, c)),
                        None => Err(ConfigError::InvalidIndentWidth),
                    }
                } else if k == TAB_CHAR@ {
                    if v.len() == 0 {
                        Err(ConfigError::EmptyIndentChar)
                    } else {
                        Ok((w, v[0]))
                    }
                } else {
                    Ok((w, c))
                }
            },
        }
    }
}

proof fn lemma_options_err(g: Seq<(String, String)>, k: int)
    requires
        0 <= k <= g.len(),
        options_of(g.subrange(0, k)) is Err,
    ensures
        options_of(g) == options_of(g.subrange(0, k)),
    decreases g.len() - k,
{
    if k < g.len() {
        assert(g.subrange(0, k + 1).drop_last() =~= g.subrange(0, k));
        lemma_options_err(g, k + 1);
    } else {
        assert(g.subrange(0, k) =~= g);
    }
}

/// Resolves the global options of a configuration; see `options_of`.
pub fn resolve_options(g: &Vec<(String, String)>) -> (r: Result<(u8, char), ConfigError>)
    ensures
        r == options_of(g@),
{
    let num_tabs_key = NUM_TABS.to_owned();
    let tab_char_key = TAB_CHAR.to_owned();
    let mut w: u8 = 4;
    let mut c: char = ' ';
    let mut i: usize = 0;
    while i < g.len()
        invariant
            0 <= i <= g.len(),
            num_tabs_key@ == NUM_TABS@,
            tab_char_key@ == TAB_CHAR@,
            options_of(g@.subrange(0, i as int)) == Ok::<(u8, char), ConfigError>((w, c)),
        decreases g.len() - i,
    {
        proof {
            assert(g@.subrange(0, i + 1).drop_last() =~= g@.subrange(0, i as int));
        }
        let k = &g[i].0;
        let v = g[i].1.as_str();
        if *k == num_tabs_key {
            match parse_width(v) {
                Some(n) => {
                    w = n;
                },
                None => {
                    proof {
                        lemma_options_err(g@, i + 1);
                    }
                    return Err(ConfigError::InvalidIndentWidth);
                },
            }
        } else if *k == tab_char_key {
            if v.is_empty() {
                proof {
                    lemma_options_err(g@, i + 1);
                }
                return Err(ConfigError::EmptyIndentChar);
            }
            c = v.get_char(0);
        }
        i += 1;
    }
    proof {
        assert(g@.subrange(0, g.len() as int) =~= g@);
    }
    Ok((w, c))
}

/// The type dictionary of an optional configuration.
pub open spec fn type_dict_of(cfg: Option<&CodeConfig>) -> Seq<(String, String)> {
    match cfg {
        Some(c) => c.type_dict@,
        None => Seq::empty(),
    }
}

/// The name dictionary of an optional configuration.
pub open spec fn name_dict_of(cfg: Option<&CodeConfig>) -> Seq<(String, String)> {
    match cfg {
        Some(c) => c.name_dict@,
        None => Seq::empty(),
    }
}

/// The indentation of an optional configuration.
pub open spec fn indent_of(cfg: Option<&CodeConfig>) -> Result<(u8, char), ConfigError> {
    match cfg {
        Some(c) => options_of(c.global_cfg@),
        None => Ok((4u8, ' ')),
    }
}

impl FormattedCode {
    /// A job for `lang` over a private copy of `data`, with the type and then
    /// the name dictionary of `cfg` applied and its indentation resolved.
    /// Fails when the indentation options are invalid.
    pub fn new(lang: Lang, cfg: &Option<&CodeConfig>, data: &Vec<CodeItem>) -> (r: Result<
        FormattedCode,
        ConfigError,
    >)
        ensures
            match indent_of(*cfg) {
                Ok((w, c)) => r is Ok && r->Ok_0.language == lang && r->Ok_0.num_tabs == w
                    && r->Ok_0.tab_char == c && all_mapped(
                    data@,
                    r->Ok_0.elements@,
                    type_dict_of(*cfg),
                    name_dict_of(*cfg),
                ),
                Err(x) => r == Err::<FormattedCode, ConfigError>(x),
            },
    {
        match *cfg {
            Some(config) => {
                let (num_tabs, tab_char) = match resolve_options(&config.global_cfg) {
                    Ok(o) => o,
                    Err(x) => {
                        return Err(x);
                    },
                };
                let elements = substitute_all(data, &config.type_dict, &config.name_dict);
                Ok(FormattedCode { language: lang, elements, num_tabs, tab_char })
            },
            None => {
                let empty: Vec<(String, String)> = Vec::new();
                let elements = substitute_all(data, &empty, &empty);
                assert(empty@ =~= Seq::<(String, String)>::empty());
                Ok(FormattedCode { language: lang, elements, num_tabs: 4, tab_char: ' ' })
            },
        }
    }

    /// The generated source text of the job.
    pub fn to_string(&self) -> (r: Result<String, RenderError>)
        ensures
            self.language == Lang::Rust ==> text_of(r) == render(self.elements@, self.num_tabs, self.tab_char),
            self.language == Lang::Cpp ==> r == Err::<String, RenderError>(RenderError::NoBackend),
    {
        match self.language {
            Lang::Rust => convert(&self.elements, self.num_tabs, self.tab_char),
            Lang::Cpp => Err(RenderError::NoBackend),
        }
    }
}

proof fn lemma_dict_misses(v: Seq<char>, dict: Seq<(String, String)>)
    requires
        forall|j: int| 0 <= j < dict.len() ==> (#[trigger] dict[j]).0@ != v,
    ensures
        subst_dict(v, dict) == v,
    decreases dict.len(),
{
    if dict.len() > 0 {
        assert forall|j: int| 0 <= j < dict.drop_last().len() implies (#[trigger] dict.drop_last()[j]).0@ != v by {
            assert(dict.drop_last()[j] == dict[j]);
        }
        lemma_dict_misses(v, dict.drop_last());
    }
}

/// With a type dictionary of the one entry `key -> repl`, every attribute
/// valued exactly `key`, at any depth of the tree, becomes `repl`, unless the
/// name dictionary rewrites `repl` again.
pub proof fn lemma_type_entry_applies(
    o: CodeItem,
    n: CodeItem,
    key: String,
    repl: String,
    nd: Seq<(String, String)>,
    i: int,
)
    requires
        mapped(o, n, seq![(key, repl)], nd),
        0 <= i < o.attributes@.len(),
        o.attributes@[i].1@ == key@,
        forall|j: int| 0 <= j < nd.len() ==> (#[trigger] nd[j]).0@ != repl@,
    ensures
        n.attributes@[i].1@ == repl@,
{
    let td = seq![(key, repl)];
    assert(td.drop_last() =~= Seq::<(String, String)>::empty());
    assert(subst_dict(key@, td.drop_last()) == key@);
    assert(td.last() == (key, repl));
    assert(subst_dict(key@, td) == repl@);
    lemma_dict_misses(repl@, nd);
    assert(n.attributes@[i].1@ == subst_value(o.attributes@[i].1@, td, nd));
}

/// A dictionary whose keys are distinct and where no entry's replacement is
/// the key of another entry maps a value to the replacement of the entry with that exact key,
/// if any, else leaves it: the order of the entries does not matter.
pub proof fn lemma_dict_order_free(v: Seq<char>, dict: Seq<(String, String)>)
    requires
        forall|a: int, b: int|
            0 <= a < dict.len() && 0 <= b < dict.len() && a != b ==> (#[trigger] dict[a]).0@ != (
            #[trigger] dict[b]).0@,
        forall|a: int, b: int|
            0 <= a < dict.len() && 0 <= b < dict.len() && a != b ==> (#[trigger] dict[a]).1@ != (
            #[trigger] dict[b]).0@,
    ensures
        forall|j: int| 0 <= j < dict.len() && (#[trigger] dict[j]).0@ == v ==> subst_dict(v, dict) == dict[j].1@,
        (forall|j: int| 0 <= j < dict.len() ==> (#[trigger] dict[j]).0@ != v) ==> subst_dict(v, dict) == v,
    decreases dict.len(),
{
    if dict.len() > 0 {
        let d = dict.drop_last();
        assert forall|a: int, b: int|
            0 <= a < d.len() && 0 <= b < d.len() && a != b implies (#[trigger] d[a]).0@ != (
            #[trigger] d[b]).0@ by {
            assert(d[a] == dict[a] && d[b] == dict[b]);
        }
        assert forall|a: int, b: int| 0 <= a < d.len() && 0 <= b < d.len() && a != b implies (#[trigger] d[a]).1@ != (
            #[trigger] d[b]).0@ by {
            assert(d[a] == dict[a] && d[b] == dict[b]);
        }
        lemma_dict_order_free(v, d);
        let last = dict.len() - 1;
        assert forall|j: int| 0 <= j < dict.len() && (#[trigger] dict[j]).0@ == v implies subst_dict(v, dict)
            == dict[j].1@ by {
            if j < last {
                assert(d[j] == dict[j]);
                assert(dict[last].0@ != dict[j].1@);
            } else {
                assert forall|k: int| 0 <= k < d.len() implies (#[trigger] d[k]).0@ != v by {
                    assert(d[k] == dict[k]);
                }
            }
        }
        if forall|j: int| 0 <= j < dict.len() ==> (#[trigger] dict[j]).0@ != v {
            assert forall|k: int| 0 <= k < d.len() implies (#[trigger] d[k]).0@ != v by {
                assert(d[k] == dict[k]);
            }
        }
    }
}

proof fn lemma_mapped_same(o: CodeItem, a: CodeItem, b: CodeItem, td: Seq<(String, String)>, nd: Seq<(String, String)>)
    requires
        mapped(o, a, td, nd),
        mapped(o, b, td, nd),
    ensures
        same_item(a, b),
    decreases o,
{
    assert forall|i: int| 0 <= i < a.attributes@.len() implies (#[trigger] a.attributes@[i]).0 == b.attributes@[i].0
        && a.attributes@[i].1@ == b.attributes@[i].1@ by {
        assert(a.attributes@[i].0 == o.attributes@[i].0);
        assert(b.attributes@[i].0 == o.attributes@[i].0);
    }
    assert forall|i: int| 0 <= i < a.children@.len() implies same_item(#[trigger] a.children@[i], b.children@[i]) by {
        assert(mapped(o.children@[i], a.children@[i], td, nd));
        assert(mapped(o.children@[i], b.children@[i], td, nd));
        lemma_mapped_same(o.children@[i], a.children@[i], b.children@[i], td, nd);
    }
}

/// Rendering is deterministic: any two jobs that `new` builds from the same
/// tree and configuration render to the same text.
pub proof fn lemma_render_deterministic(
    data: Seq<CodeItem>,
    cfg: Option<&CodeConfig>,
    a: FormattedCode,
    b: FormattedCode,
)
    requires
        all_mapped(data, a.elements@, type_dict_of(cfg), name_dict_of(cfg)),
        all_mapped(data, b.elements@, type_dict_of(cfg), name_dict_of(cfg)),
        indent_of(cfg) == Ok::<(u8, char), ConfigError>((a.num_tabs, a.tab_char)),
        indent_of(cfg) == Ok::<(u8, char), ConfigError>((b.num_tabs, b.tab_char)),
    ensures
        render(a.elements@, a.num_tabs, a.tab_char) == render(b.elements@, b.num_tabs, b.tab_char),
{
    assert forall|i: int| 0 <= i < a.elements@.len() implies same_item(#[trigger] a.elements@[i], b.elements@[i]) by {
        lemma_mapped_same(data[i], a.elements@[i], b.elements@[i], type_dict_of(cfg), name_dict_of(cfg));
    }
    lemma_render_same(a.elements@, b.elements@, a.num_tabs, a.tab_char);
}

} // verus!
