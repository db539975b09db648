use vstd::prelude::*;
use vstd::string::*;
use crate::ir::{AttrKey, CodeItem, Kind, attr_value, lookup};
use crate::text::{concat, contains_char, push_char, repeat, repeat_char, to_upper, upper_of};

verus! {

/// First line of every generated text, after the line-comment marker.
pub const AUTOGEN_HEADER: &'static str = "Automatically generated code. Do not edit by hand!\n";

/// Last line of every generated text, after the line-comment marker.
pub const AUTOGEN_FOOTER: &'static str = "End of generated code.\n";

/// Why a tree cannot be rendered.
#[derive(Clone, Copy, Debug, PartialEq, Eq, Structural)]
pub enum RenderError {
    /// A node holds a child of a kind its parent does not allow.
    InvalidIR { parent: Kind, child: Kind },
    /// No renderer exists for the requested target language.
    NoBackend,
}

/// The text of an executable rendering result.
pub open spec fn text_of(r: Result<String, RenderError>) -> Result<Seq<char>, RenderError> {
    match r {
        Ok(s) => Ok(s@),
        Err(e) => Err(e),
    }
}

/// `" " + v`, or nothing when `v` is empty.
pub open spec fn spaced(v: Seq<char>) -> Seq<char> {
    if v.len() == 0 {
        Seq::empty()
    } else {
        " "@ + v
    }
}

/// `" as " + t`, or nothing when `t` is empty.
pub open spec fn cast_suffix(t: Seq<char>) -> Seq<char> {
    if t.len() == 0 {
        Seq::empty()
    } else {
        " as "@ + t
    }
}

/// The decoration line of a block header: `ind + a + "\n"`, or nothing when `a` is empty.
pub open spec fn decoration(ind: Seq<char>, a: Seq<char>) -> Seq<char> {
    if a.len() == 0 {
        Seq::empty()
    } else {
        ind + a + "\n"@
    }
}

/// The decoration lines of an Attribute child: `"\n" + ind + value` for each
/// of its attributes.
pub open spec fn attr_lines(attrs: Seq<(AttrKey, String)>, ind: Seq<char>) -> Seq<char>
    decreases attrs.len(),
{
    if attrs.len() == 0 {
        Seq::empty()
    } else {
        attr_lines(attrs.drop_last(), ind) + "\n"@ + ind + attrs.last().1@
    }
}

/// One entry of an enumeration: `Name,` or `Name = Value [as Type],`.
pub open spec fn enum_entry(c: CodeItem, inner: Seq<char>) -> Seq<char> {
    let n = lookup(c.attributes@, AttrKey::Name, false, Seq::empty());
    let v = lookup(c.attributes@, AttrKey::Value, false, Seq::empty());
    let t = lookup(c.attributes@, AttrKey::Type, true, Seq::empty());
    if v.len() == 0 {
        inner + n + ",\n"@
    } else {
        inner + n + " = "@ + v + cast_suffix(t) + ",\n"@
    }
}

/// The decoration and the entries that the children `cs` of an
/// enumeration give, or the error of its first illegal child.
pub open spec fn enum_parts(cs: Seq<CodeItem>, ind: Seq<char>, inner: Seq<char>) -> Result<
    (Seq<char>, Seq<char>),
    RenderError,
>
    decreases cs.len(),
{
    if cs.len() == 0 {
        Ok((Seq::empty(), Seq::empty()))
    } else {
        match enum_parts(cs.drop_last(), ind, inner) {
            Err(e) => Err(e),
            Ok((a, b)) => {
                let c = cs.last();
                match c.kind {
                    Kind::Variable => Ok((a, b + enum_entry(c, inner))),
                    Kind::Attribute => Ok((a + attr_lines(c.attributes@, ind), b)),
                    _ => Err(RenderError::InvalidIR { parent: Kind::Enum, child: c.kind }),
                }
            },
        }
    }
}

/// The header line of an enumeration or a record, with its decoration line above.
pub open spec fn block_header(e: CodeItem, ind: Seq<char>, keyword: Seq<char>) -> Seq<char> {
    let name = lookup(e.attributes@, AttrKey::Name, true, Seq::empty());
    let attr = lookup(e.attributes@, AttrKey::AttributeText, true, Seq::empty());
    "\n"@ + decoration(ind, attr) + ind + keyword + spaced(name) + " {\n"@
}

/// An enumeration at indentation `ind`, its entries one `unit` deeper.
pub open spec fn render_enum(e: CodeItem, ind: Seq<char>, unit: Seq<char>) -> Result<
    Seq<char>,
    RenderError,
> {
    match enum_parts(e.children@, ind, ind + unit) {
        Err(err) => Err(err),
        Ok((a, b)) => Ok(a + block_header(e, ind, "pub enum"@) + b + ind + "}\n\n"@),
    }
}

/// The qualifier of a standalone variable: `const` unless one is given.
pub open spec fn var_qualifier(e: CodeItem) -> Seq<char> {
    lookup(e.attributes@, AttrKey::Qualifier, false, "const"@)
}

/// A variable: a field `Name: Type [= Value],` in struct-member mode, else a
/// public binding ended by `;`. Nothing at all when its type is empty.
pub open spec fn render_variable(e: CodeItem, ind: Seq<char>, member: bool) -> Seq<char> {
    let n = lookup(e.attributes@, AttrKey::Name, false, Seq::empty());
    let t = lookup(e.attributes@, AttrKey::Type, false, Seq::empty());
    let v0 = lookup(e.attributes@, AttrKey::Value, true, Seq::empty());
    let v = if v0.len() == 0 { Seq::empty() } else { " = "@ + v0 };
    let q = var_qualifier(e);
    if t.len() == 0 {
        Seq::empty()
    } else if member {
        ind + n + ": "@ + t + v + ",\n"@
    } else if q.contains('<') {
        ind + "pub "@ + n + ": "@ + q + t + v + ">;\n"@
    } else if q.len() == 0 {
        ind + "pub "@ + n + ": "@ + t + v + ";\n"@
    } else {
        ind + "pub "@ + q + " "@ + n + ": "@ + t + v + ";\n"@
    }
}

/// The keyword that marks a function pointer of the foreign calling convention.
pub open spec fn foreign_marker() -> Seq<char> {
    seq!['e', 'x', 't', 'e', 'r', 'n']
}

/// The qualifier of a function: the given one, else the foreign marker for a
/// function pointer, else none.
pub open spec fn fn_qualifier(e: CodeItem, fptr: bool) -> Seq<char> {
    let q = lookup(e.attributes@, AttrKey::Qualifier, true, Seq::empty());
    if fptr && q.len() == 0 {
        foreign_marker()
    } else {
        q
    }
}

/// The parameter separator before a parameter.
pub open spec fn separator(comma: bool, first: bool) -> Seq<char> {
    if comma && !first {
        ", "@
    } else {
        Seq::empty()
    }
}

/// A function or function pointer: `Name: [Qualifier] fn(params) [-> Type]`.
/// As a parameter (`is_arg`) it has no indentation, no visibility marker and
/// no terminator.
pub open spec fn render_function(
    e: CodeItem,
    ind: Seq<char>,
    member: bool,
    fptr: bool,
    is_arg: bool,
) -> Result<Seq<char>, RenderError>
    decreases e, 3int, 0int,
{
    let name = lookup(e.attributes@, AttrKey::Name, false, Seq::empty());
    let ty = lookup(e.attributes@, AttrKey::Type, false, Seq::empty());
    let q = fn_qualifier(e, fptr);
    let generic = q.contains('<');
    let q2 = if generic || q.len() == 0 { q } else { q + " "@ };
    let suffix = if generic { ">"@ } else { Seq::empty() };
    let vis = if is_arg || member { Seq::empty() } else { "pub "@ };
    let indent = if is_arg { Seq::empty() } else { ind };
    let ret = if ty.len() == 0 { Seq::empty() } else { " -> "@ + ty };
    let end = if is_arg { Seq::empty() } else if member { ",\n"@ } else { ";\n"@ };
    match fn_params(e, e.children@.len() as int, ind) {
        Err(err) => Err(err),
        Ok((p, _first)) => Ok(indent + vis + name + ": "@ + q2 + "fn("@ + p + ")"@ + ret + suffix + end),
    }
}

/// The parameter list that the first `n` children of a function give, and
/// whether none of them has given a parameter yet.
pub open spec fn fn_params(e: CodeItem, n: int, ind: Seq<char>) -> Result<(Seq<char>, bool), RenderError>
    decreases e, 2int, n,
{
    if n <= 0 || n > e.children@.len() {
        Ok((Seq::empty(), true))
    } else {
        let comma = e.children@.len() > 1;
        match fn_params(e, n - 1, ind) {
            Err(err) => Err(err),
            Ok((s, first)) => {
                let c = e.children@[n - 1];
                match c.kind {
                    Kind::Variable => var_param(c, ind, comma, s, first),
                    Kind::FunctionPointer => {
                        match render_function(c, ind, false, true, true) {
                            Err(err) => Err(err),
                            Ok(f) => Ok((s + separator(comma, first) + f, false)),
                        }
                    },
                    _ => Err(RenderError::InvalidIR { parent: e.kind, child: c.kind }),
                }
            },
        }
    }
}

/// Appends to `(s, first)` the parameters that a Variable child `c` gives:
/// the function pointers among its children, then `Name: Type` unless its
/// type is empty.
pub open spec fn var_param(c: CodeItem, ind: Seq<char>, comma: bool, s: Seq<char>, first: bool) -> Result<
    (Seq<char>, bool),
    RenderError,
>
    decreases c, 1int, c.children@.len() + 1,
{
    match var_fptrs(c, c.children@.len() as int, ind, comma, s, first) {
        Err(err) => Err(err),
        Ok((s2, first2)) => {
            let nm0 = lookup(c.attributes@, AttrKey::Name, true, Seq::empty());
            let nm = if nm0.len() == 0 { nm0 } else { nm0 + ": "@ };
            let t = lookup(c.attributes@, AttrKey::Type, false, Seq::empty());
            if t.len() == 0 {
                Ok((s2, first2))
            } else {
                Ok((s2 + separator(comma, first2) + nm + t, false))
            }
        },
    }
}

/// The kind of the node that holds the first Function node below `e`, if
/// any: children in order, each child's own subtree before the next child.
pub open spec fn function_holder(e: CodeItem) -> Option<Kind>
    decreases e, 1int, 0int,
{
    function_holder_upto(e, e.children@.len() as int)
}

/// `function_holder` over the first `n` children of `e` only.
pub open spec fn function_holder_upto(e: CodeItem, n: int) -> Option<Kind>
    decreases e, 0int, n,
{
    if n <= 0 || n > e.children@.len() {
        None
    } else {
        match function_holder_upto(e, n - 1) {
            Some(k) => Some(k),
            None => {
                let c = e.children@[n - 1];
                if c.kind == Kind::Function {
                    Some(e.kind)
                } else {
                    function_holder(c)
                }
            },
        }
    }
}

/// Appends to `(s, first)` the function pointers among the first `m` children
/// of a parameter variable `c`, as inline parameters. Other children give no
/// text, but a Function node among them or below them is an invalid tree.
pub open spec fn var_fptrs(
    c: CodeItem,
    m: int,
    ind: Seq<char>,
    comma: bool,
    s: Seq<char>,
    first: bool,
) -> Result<(Seq<char>, bool), RenderError>
    decreases c, 1int, m,
{
    if m <= 0 || m > c.children@.len() {
        Ok((s, first))
    } else {
        match var_fptrs(c, m - 1, ind, comma, s, first) {
            Err(err) => Err(err),
            Ok((s1, first1)) => {
                let vc = c.children@[m - 1];
                if vc.kind == Kind::FunctionPointer {
                    match render_function(vc, ind, false, true, true) {
                        Err(err) => Err(err),
                        Ok(f) => Ok((s1 + separator(comma, first1) + f, false)),
                    }
                } else if vc.kind == Kind::Function {
                    Err(RenderError::InvalidIR { parent: c.kind, child: Kind::Function })
                } else {
                    match function_holder(vc) {
                        Some(k) => Err(RenderError::InvalidIR { parent: k, child: Kind::Function }),
                        None => Ok((s1, first1)),
                    }
                }
            },
        }
    }
}


/// The decoration and the members that the first `n` children of a record
/// give, each member one `unit` deeper in struct-member mode.
pub open spec fn struct_parts(e: CodeItem, n: int, ind: Seq<char>, unit: Seq<char>) -> Result<
    (Seq<char>, Seq<char>),
    RenderError,
>
    decreases e, 4int, n,
{
    if n <= 0 || n > e.children@.len() {
        Ok((Seq::empty(), Seq::empty()))
    } else {
        match struct_parts(e, n - 1, ind, unit) {
            Err(err) => Err(err),
            Ok((a, b)) => {
                let c = e.children@[n - 1];
                if c.kind == Kind::Attribute {
                    Ok((a + attr_lines(c.attributes@, ind), b))
                } else {
                    match render_item(c, ind + unit, unit, true) {
                        Err(err) => Err(err),
                        Ok(m) => Ok((a, b + m)),
                    }
                }
            },
        }
    }
}

/// A record at indentation `ind`.
pub open spec fn render_struct(e: CodeItem, ind: Seq<char>, unit: Seq<char>) -> Result<
    Seq<char>,
    RenderError,
>
    decreases e, 5int, 0int,
{
    match struct_parts(e, e.children@.len() as int, ind, unit) {
        Err(err) => Err(err),
        Ok((a, b)) => Ok(a + block_header(e, ind, "pub struct"@) + b + ind + "}\n\n"@),
    }
}

/// Any node at indentation `ind`; an Attribute node alone gives nothing.
pub open spec fn render_item(e: CodeItem, ind: Seq<char>, unit: Seq<char>, member: bool) -> Result<
    Seq<char>,
    RenderError,
>
    decreases e, 6int, 0int,
{
    match e.kind {
        Kind::Enum => render_enum(e, ind, unit),
        Kind::Variable => Ok(render_variable(e, ind, member)),
        Kind::Function => render_function(e, ind, member, false, false),
        Kind::FunctionPointer => render_function(e, ind, member, true, false),
        Kind::Struct => render_struct(e, ind, unit),
        Kind::BitFlagSet => render_bitflags(e, ind, unit),
        Kind::Attribute => Ok(Seq::empty()),
    }
}

/// One constant of a flag set: its name in upper case and the enumeration's value rule.
pub open spec fn flag_entry(c: CodeItem, inner: Seq<char>) -> Seq<char> {
    let n = lookup(c.attributes@, AttrKey::Name, false, Seq::empty());
    let v = lookup(c.attributes@, AttrKey::Value, false, Seq::empty());
    let t = lookup(c.attributes@, AttrKey::Type, true, Seq::empty());
    flag_line(inner, upper_of(n), v, t)
}

/// The constant line of a flag set at indentation `inner`: `const NAME,`
/// when the value is empty, else `const NAME = Value [as Type],`.
pub open spec fn flag_line(inner: Seq<char>, upper: Seq<char>, v: Seq<char>, t: Seq<char>) -> Seq<char> {
    if v.len() == 0 {
        inner + "const "@ + upper + ",\n"@
    } else {
        inner + "const "@ + upper + " = "@ + v + cast_suffix(t) + ",\n"@
    }
}

/// The decoration (at indentation `sp`) and the constants (at `inner`) that
/// the children of a flag set give.
pub open spec fn flag_parts(cs: Seq<CodeItem>, sp: Seq<char>, inner: Seq<char>) -> Result<
    (Seq<char>, Seq<char>),
    RenderError,
>
    decreases cs.len(),
{
    if cs.len() == 0 {
        Ok((Seq::empty(), Seq::empty()))
    } else {
        match flag_parts(cs.drop_last(), sp, inner) {
            Err(e) => Err(e),
            Ok((a, b)) => {
                let c = cs.last();
                match c.kind {
                    Kind::Variable => Ok((a, b + flag_entry(c, inner))),
                    Kind::Attribute => Ok((a + attr_lines(c.attributes@, sp), b)),
                    _ => Err(RenderError::InvalidIR { parent: Kind::BitFlagSet, child: c.kind }),
                }
            },
        }
    }
}

/// The name of the macro that declares a flag set, with its opening brace.
pub open spec fn flags_open() -> Seq<char> {
    "bitflags! {"@
}

/// A flag set at indentation `ind`, as a macro invocation around a `flags` block.
pub open spec fn render_bitflags(e: CodeItem, ind: Seq<char>, unit: Seq<char>) -> Result<
    Seq<char>,
    RenderError,
> {
    let sp = ind + unit;
    let name = lookup(e.attributes@, AttrKey::Name, true, Seq::empty());
    let ty = lookup(e.attributes@, AttrKey::Type, true, Seq::empty());
    let attr = lookup(e.attributes@, AttrKey::AttributeText, true, Seq::empty());
    match flag_parts(e.children@, sp, sp + unit) {
        Err(err) => Err(err),
        Ok((a, b)) => Ok(
            ind + flags_open() + a + "\n"@ + decoration(sp, attr) + sp + "flags"@ + spaced(name) + ":"@
                + spaced(ty) + " {\n"@ + b + sp + "}\n"@ + ind + "}\n\n"@,
        ),
    }
}

/// The top-level items rendered one after the other, at no indentation.
pub open spec fn render_items(items: Seq<CodeItem>, unit: Seq<char>) -> Result<Seq<char>, RenderError>
    decreases items.len(),
{
    if items.len() == 0 {
        Ok(Seq::empty())
    } else {
        match render_items(items.drop_last(), unit) {
            Err(err) => Err(err),
            Ok(s) => match render_item(items.last(), Seq::empty(), unit, false) {
                Err(err) => Err(err),
                Ok(t) => Ok(s + t),
            },
        }
    }
}

/// The whole text for a list of top-level items, indented by `width` copies
/// of `tab` per level, between the banner lines.
pub open spec fn render(items: Seq<CodeItem>, width: u8, tab: char) -> Result<Seq<char>, RenderError> {
    match render_items(items, repeat(tab, width as nat)) {
        Err(err) => Err(err),
        Ok(body) => Ok("// "@ + AUTOGEN_HEADER@ + body + "// "@ + AUTOGEN_FOOTER@),
    }
}

proof fn lemma_empty_literal()
    ensures
        ""@ == Seq::<char>::empty(),
{
    reveal_strlit("");
    assert(""@ =~= Seq::<char>::empty());
}

/// Appends the decoration lines of an Attribute child.
fn attr_lines_into(attrs: &Vec<(AttrKey, String)>, ind: &String, out: &mut String)
    ensures
        final(out)@ == old(out)@ + attr_lines(attrs@, ind@),
{
    let ghost start = out@;
    let mut i: usize = 0;
    while i < attrs.len()
        invariant
            0 <= i <= attrs.len(),
            out@ == start + attr_lines(attrs@.subrange(0, i as int), ind@),
        decreases attrs.len() - i,
    {
        let ghost before = out@;
        out.append("\n");
        out.append(ind.as_str());
        out.append(attrs[i].1.as_str());
        proof {
            let sub = attrs@.subrange(0, i + 1);
            assert(sub.drop_last() =~= attrs@.subrange(0, i as int));
            assert(out@ =~= start + attr_lines(sub, ind@));
        }
        i += 1;
    }
    proof {
        assert(attrs@.subrange(0, attrs.len() as int) =~= attrs@);
    }
}

/// Appends one entry of an enumeration.
fn enum_entry_into(c: &CodeItem, inner: &String, out: &mut String)
    ensures
        final(out)@ == old(out)@ + enum_entry(*c, inner@),
{
    proof {
        lemma_empty_literal();
    }
    let n = attr_value(&c.attributes, AttrKey::Name, false, "");
    let v = attr_value(&c.attributes, AttrKey::Value, false, "");
    let t = attr_value(&c.attributes, AttrKey::Type, true, "");
    let ghost start = out@;
    out.append(inner.as_str());
    out.append(n.as_str());
    if !v.as_str().is_empty() {
        out.append(" = ");
        out.append(v.as_str());
        if !t.as_str().is_empty() {
            out.append(" as ");
            out.append(t.as_str());
        }
    }
    out.append(",\n");
    assert(out@ =~= start + enum_entry(*c, inner@));
}

/// Appends the header line of a block, with its decoration line above.
fn header_into(e: &CodeItem, ind: &String, keyword: &str, out: &mut String)
    ensures
        final(out)@ == old(out)@ + block_header(*e, ind@, keyword@),
{
    proof {
        lemma_empty_literal();
    }
    let name = attr_value(&e.attributes, AttrKey::Name, true, "");
    let attr = attr_value(&e.attributes, AttrKey::AttributeText, true, "");
    let ghost start = out@;
    out.append("\n");
    if !attr.as_str().is_empty() {
        out.append(ind.as_str());
        out.append(attr.as_str());
        out.append("\n");
    }
    out.append(ind.as_str());
    out.append(keyword);
    if !name.as_str().is_empty() {
        out.append(" ");
        out.append(name.as_str());
    }
    out.append(" {\n");
    assert(out@ =~= start + block_header(*e, ind@, keyword@));
}

proof fn lemma_enum_parts_err(cs: Seq<CodeItem>, k: int, ind: Seq<char>, inner: Seq<char>)
    requires
        0 <= k <= cs.len(),
        enum_parts(cs.subrange(0, k), ind, inner) is Err,
    ensures
        enum_parts(cs, ind, inner) == enum_parts(cs.subrange(0, k), ind, inner),
    decreases cs.len() - k,
{
    if k < cs.len() {
        assert(cs.subrange(0, k + 1).drop_last() =~= cs.subrange(0, k));
        lemma_enum_parts_err(cs, k + 1, ind, inner);
    } else {
        assert(cs.subrange(0, k) =~= cs);
    }
}

/// Renders an enumeration; see `render_enum`.
fn make_enum(e: &CodeItem, ind: &String, unit: &String) -> (r: Result<String, RenderError>)
    ensures
        text_of(r) == render_enum(*e, ind@, unit@),
{
    let inner = concat(ind, unit.as_str());
    let mut attrib = String::new();
    let mut body = String::new();
    let mut i: usize = 0;
    while i < e.children.len()
        invariant
            0 <= i <= e.children.len(),
            inner@ == ind@ + unit@,
            enum_parts(e.children@.subrange(0, i as int), ind@, inner@) == Ok::<
                (Seq<char>, Seq<char>),
                RenderError,
            >((attrib@, body@)),
        decreases e.children.len() - i,
    {
        let c = &e.children[i];
        proof {
            assert(e.children@.subrange(0, i + 1).drop_last() =~= e.children@.subrange(0, i as int));
        }
        match c.kind {
            Kind::Variable => {
                enum_entry_into(c, &inner, &mut body);
            },
            Kind::Attribute => {
                attr_lines_into(&c.attributes, ind, &mut attrib);
            },
            _ => {
                proof {
                    lemma_enum_parts_err(e.children@, i + 1, ind@, inner@);
                }
                return Err(RenderError::InvalidIR { parent: Kind::Enum, child: c.kind });
            },
        }
        i += 1;
    }
    proof {
        assert(e.children@.subrange(0, e.children.len() as int) =~= e.children@);
    }
    let ghost a = attrib@;
    let ghost b = body@;
    header_into(e, ind, "pub enum", &mut attrib);
    attrib.append(body.as_str());
    attrib.append(ind.as_str());
    attrib.append("}\n\n");
    assert(attrib@ =~= a + block_header(*e, ind@, "pub enum"@) + b + ind@ + "}\n\n"@);
    Ok(attrib)
}

/// Renders a variable; see `render_variable`.
fn make_variable(e: &CodeItem, ind: &String, member: bool) -> (r: String)
    ensures
        r@ == render_variable(*e, ind@, member),
{
    proof {
        lemma_empty_literal();
    }
    let n = attr_value(&e.attributes, AttrKey::Name, false, "");
    let t = attr_value(&e.attributes, AttrKey::Type, false, "");
    let v = attr_value(&e.attributes, AttrKey::Value, true, "");
    let q = attr_value(&e.attributes, AttrKey::Qualifier, false, "const");
    if t.as_str().is_empty() {
        return String::new();
    }
    let generic = contains_char(q.as_str(), '<');
    let mut r = ind.clone();
    if !member {
        r.append("pub ");
        if !generic && !q.as_str().is_empty() {
            r.append(q.as_str());
            r.append(" ");
        }
    }
    r.append(n.as_str());
    r.append(": ");
    if !member && generic {
        r.append(q.as_str());
    }
    r.append(t.as_str());
    if !v.as_str().is_empty() {
        r.append(" = ");
        r.append(v.as_str());
    }
    if member {
        r.append(",\n");
    } else if generic {
        r.append(">;\n");
    } else {
        r.append(";\n");
    }
    assert(r@ =~= render_variable(*e, ind@, member));
    r
}

/// The foreign-convention keyword, spelled out character by character.
fn foreign_keyword() -> (r: String)
    ensures
        r@ == foreign_marker(),
{
    let mut r = String::new();
    push_char(&mut r, 'e');
    push_char(&mut r, 'x');
    push_char(&mut r, 't');
    push_char(&mut r, 'e');
    push_char(&mut r, 'r');
    push_char(&mut r, 'n');
    assert(r@ =~= foreign_marker());
    r
}

proof fn lemma_fn_params_err(e: CodeItem, k: int, ind: Seq<char>)
    requires
        0 <= k <= e.children@.len(),
        fn_params(e, k, ind) is Err,
    ensures
        fn_params(e, e.children@.len() as int, ind) == fn_params(e, k, ind),
    decreases e.children@.len() - k,
{
    if k < e.children@.len() {
        lemma_fn_params_err(e, k + 1, ind);
    }
}

proof fn lemma_var_fptrs_err(c: CodeItem, k: int, ind: Seq<char>, comma: bool, s: Seq<char>, first: bool)
    requires
        0 <= k <= c.children@.len(),
        var_fptrs(c, k, ind, comma, s, first) is Err,
    ensures
        var_fptrs(c, c.children@.len() as int, ind, comma, s, first) == var_fptrs(c, k, ind, comma, s, first),
    decreases c.children@.len() - k,
{
    if k < c.children@.len() {
        lemma_var_fptrs_err(c, k + 1, ind, comma, s, first);
    }
}

/// Finds the holder of the first Function node below `e`; see `function_holder`.
fn find_function_holder(e: &CodeItem) -> (r: Option<Kind>)
    ensures
        r == function_holder(*e),
    decreases e,
{
    let mut r: Option<Kind> = None;
    let mut i: usize = 0;
    while i < e.children.len()
        invariant
            0 <= i <= e.children.len(),
            r == function_holder_upto(*e, i as int),
        decreases e.children.len() - i,
    {
        if r.is_none() {
            let c = &e.children[i];
            if c.kind == Kind::Function {
                r = Some(e.kind);
            } else {
                r = find_function_holder(c);
            }
        }
        i += 1;
    }
    r
}

/// Appends the parameters that a Variable child of a function gives; see `var_param`.
fn push_var_param(c: &CodeItem, ind: &String, comma: bool, p: &mut String, first: &mut bool) -> (r: Result<
    (),
    RenderError,
>)
    ensures
        match var_param(*c, ind@, comma, old(p)@, *old(first)) {
            Ok((s, f)) => r is Ok && final(p)@ == s && *final(first) == f,
            Err(x) => r == Err::<(), RenderError>(x),
        },
    decreases c, 0int,
{
    proof {
        lemma_empty_literal();
    }
    let ghost p0 = p@;
    let ghost f0 = *first;
    let mut j: usize = 0;
    while j < c.children.len()
        invariant
            0 <= j <= c.children.len(),
            p0 == old(p)@,
            f0 == *old(first),
            var_fptrs(*c, j as int, ind@, comma, p0, f0) == Ok::<(Seq<char>, bool), RenderError>(
                (p@, *first),
            ),
        decreases c.children.len() - j,
    {
        let vc = &c.children[j];
        if vc.kind == Kind::FunctionPointer {
            match make_function(vc, ind, false, true, true) {
                Ok(f) => {
                    if comma && !*first {
                        p.append(", ");
                    }
                    p.append(f.as_str());
                    *first = false;
                },
                Err(x) => {
                    proof {
                        assert(var_fptrs(*c, j + 1, ind@, comma, p0, f0) == Err::<
                            (Seq<char>, bool),
                            RenderError,
                        >(x));
                        lemma_var_fptrs_err(*c, j + 1, ind@, comma, p0, f0);
                        assert(var_param(*c, ind@, comma, p0, f0) == Err::<
                            (Seq<char>, bool),
                            RenderError,
                        >(x));
                    }
                    return Err(x);
                },
            }
        } else if vc.kind == Kind::Function {
            proof {
                lemma_var_fptrs_err(*c, j + 1, ind@, comma, p0, f0);
            }
            return Err(RenderError::InvalidIR { parent: c.kind, child: Kind::Function });
        } else {
            match find_function_holder(vc) {
                Some(k) => {
                    proof {
                        lemma_var_fptrs_err(*c, j + 1, ind@, comma, p0, f0);
                    }
                    return Err(RenderError::InvalidIR { parent: k, child: Kind::Function });
                },
                None => {},
            }
        }
        j += 1;
    }
    let ghost s2 = p@;
    let ghost f2 = *first;
    let nm = attr_value(&c.attributes, AttrKey::Name, true, "");
    let t = attr_value(&c.attributes, AttrKey::Type, false, "");
    if !t.as_str().is_empty() {
        if comma && !*first {
            p.append(", ");
        }
        if !nm.as_str().is_empty() {
            p.append(nm.as_str());
            p.append(": ");
        }
        p.append(t.as_str());
        *first = false;
        proof {
            let nmx = if nm@.len() == 0 { nm@ } else { nm@ + ": "@ };
            assert(p@ =~= s2 + separator(comma, f2) + nmx + t@);
        }
    }
    Ok(())
}

/// Renders the parameter list of a function; see `fn_params`.
fn make_params(e: &CodeItem, ind: &String) -> (r: Result<String, RenderError>)
    ensures
        match fn_params(*e, e.children@.len() as int, ind@) {
            Ok((s, _f)) => r is Ok && r->Ok_0@ == s,
            Err(x) => r == Err::<String, RenderError>(x),
        },
    decreases e, 1int,
{
    let comma = e.children.len() > 1;
    let mut p = String::new();
    let mut first = true;
    let mut i: usize = 0;
    while i < e.children.len()
        invariant
            0 <= i <= e.children.len(),
            comma == (e.children@.len() > 1),
            fn_params(*e, i as int, ind@) == Ok::<(Seq<char>, bool), RenderError>((p@, first)),
        decreases e.children.len() - i,
    {
        let c = &e.children[i];
        match c.kind {
            Kind::Variable => {
                match push_var_param(c, ind, comma, &mut p, &mut first) {
                    Ok(()) => {},
                    Err(x) => {
                        proof {
                            lemma_fn_params_err(*e, i + 1, ind@);
                        }
                        return Err(x);
                    },
                }
            },
            Kind::FunctionPointer => {
                match make_function(c, ind, false, true, true) {
                    Ok(f) => {
                        let ghost p0 = p@;
                        if comma && !first {
                            p.append(", ");
                        }
                        p.append(f.as_str());
                        first = false;
                    },
                    Err(x) => {
                        proof {
                            lemma_fn_params_err(*e, i + 1, ind@);
                        }
                        return Err(x);
                    },
                }
            },
            _ => {
                proof {
                    lemma_fn_params_err(*e, i + 1, ind@);
                }
                return Err(RenderError::InvalidIR { parent: e.kind, child: c.kind });
            },
        }
        i += 1;
    }
    Ok(p)
}

/// Renders a function or function pointer; see `render_function`.
fn make_function(e: &CodeItem, ind: &String, member: bool, fptr: bool, is_arg: bool) -> (r: Result<
    String,
    RenderError,
>)
    ensures
        text_of(r) == render_function(*e, ind@, member, fptr, is_arg),
    decreases e, 2int,
{
    proof {
        lemma_empty_literal();
    }
    let name = attr_value(&e.attributes, AttrKey::Name, false, "");
    let ty = attr_value(&e.attributes, AttrKey::Type, false, "");
    let q0 = attr_value(&e.attributes, AttrKey::Qualifier, true, "");
    let q = if fptr && q0.as_str().is_empty() {
        foreign_keyword()
    } else {
        q0
    };
    assert(q@ == fn_qualifier(*e, fptr));
    let generic = contains_char(q.as_str(), '<');
    let p = match make_params(e, ind) {
        Ok(p) => p,
        Err(x) => {
            return Err(x);
        },
    };
    let mut r = if is_arg {
        String::new()
    } else {
        ind.clone()
    };
    let ghost r0 = r@;
    if !is_arg && !member {
        r.append("pub ");
    }
    r.append(name.as_str());
    r.append(": ");
    r.append(q.as_str());
    if !generic && !q.as_str().is_empty() {
        r.append(" ");
    }
    r.append("fn(");
    r.append(p.as_str());
    r.append(")");
    if !ty.as_str().is_empty() {
        r.append(" -> ");
        r.append(ty.as_str());
    }
    if generic {
        r.append(">");
    }
    if !is_arg {
        if member {
            r.append(",\n");
        } else {
            r.append(";\n");
        }
    }
    proof {
        let q2 = if generic || q@.len() == 0 { q@ } else { q@ + " "@ };
        let suffix = if generic { ">"@ } else { Seq::<char>::empty() };
        let vis = if is_arg || member { Seq::<char>::empty() } else { "pub "@ };
        let ret = if ty@.len() == 0 { Seq::<char>::empty() } else { " -> "@ + ty@ };
        let end = if is_arg { Seq::<char>::empty() } else if member { ",\n"@ } else { ";\n"@ };
        assert(r@ =~= r0 + vis + name@ + ": "@ + q2 + "fn("@ + p@ + ")"@ + ret + suffix + end);
    }
    Ok(r)
}

proof fn lemma_struct_parts_err(e: CodeItem, k: int, ind: Seq<char>, unit: Seq<char>)
    requires
        0 <= k <= e.children@.len(),
        struct_parts(e, k, ind, unit) is Err,
    ensures
        struct_parts(e, e.children@.len() as int, ind, unit) == struct_parts(e, k, ind, unit),
    decreases e.children@.len() - k,
{
    if k < e.children@.len() {
        lemma_struct_parts_err(e, k + 1, ind, unit);
    }
}

/// Renders a record; see `render_struct`.
fn make_struct(e: &CodeItem, ind: &String, unit: &String) -> (r: Result<String, RenderError>)
    ensures
        text_of(r) == render_struct(*e, ind@, unit@),
    decreases e, 0int,
{
    let inner = concat(ind, unit.as_str());
    let mut attrib = String::new();
    let mut body = String::new();
    let mut i: usize = 0;
    while i < e.children.len()
        invariant
            0 <= i <= e.children.len(),
            inner@ == ind@ + unit@,
            struct_parts(*e, i as int, ind@, unit@) == Ok::<(Seq<char>, Seq<char>), RenderError>(
                (attrib@, body@),
            ),
        decreases e.children.len() - i,
    {
        let c = &e.children[i];
        if c.kind == Kind::Attribute {
            attr_lines_into(&c.attributes, ind, &mut attrib);
        } else {
            match parse_item(c, &inner, unit, true) {
                Ok(m) => {
                    body.append(m.as_str());
                },
                Err(x) => {
                    proof {
                        lemma_struct_parts_err(*e, i + 1, ind@, unit@);
                    }
                    return Err(x);
                },
            }
        }
        i += 1;
    }
    let ghost a = attrib@;
    let ghost b = body@;
    header_into(e, ind, "pub struct", &mut attrib);
    attrib.append(body.as_str());
    attrib.append(ind.as_str());
    attrib.append("}\n\n");
    assert(attrib@ =~= a + block_header(*e, ind@, "pub struct"@) + b + ind@ + "}\n\n"@);
    Ok(attrib)
}

/// Renders any node; see `render_item`.
fn parse_item(e: &CodeItem, ind: &String, unit: &String, member: bool) -> (r: Result<String, RenderError>)
    ensures
        text_of(r) == render_item(*e, ind@, unit@, member),
    decreases e, 1int,
{
    match e.kind {
        Kind::Enum => make_enum(e, ind, unit),
        Kind::Variable => Ok(make_variable(e, ind, member)),
        Kind::Function => make_function(e, ind, member, false, false),
        Kind::FunctionPointer => make_function(e, ind, member, true, false),
        Kind::Struct => make_struct(e, ind, unit),
        Kind::BitFlagSet => make_bitflags(e, ind, unit),
        Kind::Attribute => Ok(String::new()),
    }
}

proof fn lemma_flag_parts_err(cs: Seq<CodeItem>, k: int, sp: Seq<char>, inner: Seq<char>)
    requires
        0 <= k <= cs.len(),
        flag_parts(cs.subrange(0, k), sp, inner) is Err,
    ensures
        flag_parts(cs, sp, inner) == flag_parts(cs.subrange(0, k), sp, inner),
    decreases cs.len() - k,
{
    if k < cs.len() {
        assert(cs.subrange(0, k + 1).drop_last() =~= cs.subrange(0, k));
        lemma_flag_parts_err(cs, k + 1, sp, inner);
    } else {
        assert(cs.subrange(0, k) =~= cs);
    }
}

/// The constant line of a flag set for a name already in upper case; see `flag_line`.
pub fn flag_constant(inner: &String, upper_name: &str, value: &str, ty: &str) -> (r: String)
    ensures
        r@ == flag_line(inner@, upper_name@, value@, ty@),
{
    let mut r = inner.clone();
    r.append("const ");
    r.append(upper_name);
    if !value.is_empty() {
        r.append(" = ");
        r.append(value);
        if !ty.is_empty() {
            r.append(" as ");
            r.append(ty);
        }
    }
    r.append(",\n");
    assert(r@ =~= flag_line(inner@, upper_name@, value@, ty@));
    r
}

/// Appends one constant of a flag set.
fn flag_entry_into(c: &CodeItem, inner: &String, out: &mut String)
    ensures
        final(out)@ == old(out)@ + flag_entry(*c, inner@),
{
    proof {
        lemma_empty_literal();
    }
    let n = attr_value(&c.attributes, AttrKey::Name, false, "");
    let v = attr_value(&c.attributes, AttrKey::Value, false, "");
    let t = attr_value(&c.attributes, AttrKey::Type, true, "");
    let upper = to_upper(n.as_str());
    let line = flag_constant(inner, upper.as_str(), v.as_str(), t.as_str());
    out.append(line.as_str());
}

/// Renders a flag set; see `render_bitflags`.
fn make_bitflags(e: &CodeItem, ind: &String, unit: &String) -> (r: Result<String, RenderError>)
    ensures
        text_of(r) == render_bitflags(*e, ind@, unit@),
{
    proof {
        lemma_empty_literal();
    }
    let sp = concat(ind, unit.as_str());
    let inner = concat(&sp, unit.as_str());
    let mut attrib = String::new();
    let mut body = String::new();
    let mut i: usize = 0;
    while i < e.children.len()
        invariant
            0 <= i <= e.children.len(),
            sp@ == ind@ + unit@,
            inner@ == sp@ + unit@,
            flag_parts(e.children@.subrange(0, i as int), sp@, inner@) == Ok::<
                (Seq<char>, Seq<char>),
                RenderError,
            >((attrib@, body@)),
        decreases e.children.len() - i,
    {
        let c = &e.children[i];
        proof {
            assert(e.children@.subrange(0, i + 1).drop_last() =~= e.children@.subrange(0, i as int));
        }
        match c.kind {
            Kind::Variable => {
                flag_entry_into(c, &inner, &mut body);
            },
            Kind::Attribute => {
                attr_lines_into(&c.attributes, &sp, &mut attrib);
            },
            _ => {
                proof {
                    lemma_flag_parts_err(e.children@, i + 1, sp@, inner@);
                }
                return Err(RenderError::InvalidIR { parent: Kind::BitFlagSet, child: c.kind });
            },
        }
        i += 1;
    }
    proof {
        assert(e.children@.subrange(0, e.children.len() as int) =~= e.children@);
    }
    let name = attr_value(&e.attributes, AttrKey::Name, true, "");
    let ty = attr_value(&e.attributes, AttrKey::Type, true, "");
    let attr = attr_value(&e.attributes, AttrKey::AttributeText, true, "");
    let mut r = ind.clone();
    r.append("bitflags! {");
    r.append(attrib.as_str());
    r.append("\n");
    if !attr.as_str().is_empty() {
        r.append(sp.as_str());
        r.append(attr.as_str());
        r.append("\n");
    }
    r.append(sp.as_str());
    r.append("flags");
    if !name.as_str().is_empty() {
        r.append(" ");
        r.append(name.as_str());
    }
    r.append(":");
    if !ty.as_str().is_empty() {
        r.append(" ");
        r.append(ty.as_str());
    }
    r.append(" {\n");
    r.append(body.as_str());
    r.append(sp.as_str());
    r.append("}\n");
    r.append(ind.as_str());
    r.append("}\n\n");
    assert(r@ =~= ind@ + flags_open() + attrib@ + "\n"@ + decoration(sp@, attr@) + sp@ + "flags"@
        + spaced(name@) + ":"@ + spaced(ty@) + " {\n"@ + body@ + sp@ + "}\n"@ + ind@ + "}\n\n"@);
    Ok(r)
}

proof fn lemma_render_items_err(items: Seq<CodeItem>, k: int, unit: Seq<char>)
    requires
        0 <= k <= items.len(),
        render_items(items.subrange(0, k), unit) is Err,
    ensures
        render_items(items, unit) == render_items(items.subrange(0, k), unit),
    decreases items.len() - k,
{
    if k < items.len() {
        assert(items.subrange(0, k + 1).drop_last() =~= items.subrange(0, k));
        lemma_render_items_err(items, k + 1, unit);
    } else {
        assert(items.subrange(0, k) =~= items);
    }
}

/// Renders top-level items into Rust source text between the banner lines,
/// indenting by `num_tabs` copies of `tab_char` per nesting level. Fails on
/// the first node that holds a child of a kind its parent does not allow.
pub fn convert(code_items: &Vec<CodeItem>, num_tabs: u8, tab_char: char) -> (r: Result<String, RenderError>)
    ensures
        text_of(r) == render(code_items@, num_tabs, tab_char),
{
    let unit = repeat_char(tab_char, num_tabs);
    let top = String::new();
    let mut body = String::new();
    let mut i: usize = 0;
    while i < code_items.len()
        invariant
            0 <= i <= code_items.len(),
            unit@ == repeat(tab_char, num_tabs as nat),
            top@ == Seq::<char>::empty(),
            render_items(code_items@.subrange(0, i as int), unit@) == Ok::<Seq<char>, RenderError>(body@),
        decreases code_items.len() - i,
    {
        proof {
            assert(code_items@.subrange(0, i + 1).drop_last() =~= code_items@.subrange(0, i as int));
        }
        match parse_item(&code_items[i], &top, &unit, false) {
            Ok(t) => {
                body.append(t.as_str());
            },
            Err(x) => {
                proof {
                    lemma_render_items_err(code_items@, i + 1, unit@);
                }
                return Err(x);
            },
        }
        i += 1;
    }
    proof {
        assert(code_items@.subrange(0, code_items.len() as int) =~= code_items@);
    }
    let mut r = String::new();
    r.append("// ");
    r.append(AUTOGEN_HEADER);
    r.append(body.as_str());
    r.append("// ");
    r.append(AUTOGEN_FOOTER);
    assert(r@ =~= "// "@ + AUTOGEN_HEADER@ + body@ + "// "@ + AUTOGEN_FOOTER@);
    Ok(r)
}

/// Whether `s` ends with `t`.
pub open spec fn ends_with(s: Seq<char>, t: Seq<char>) -> bool {
    s.len() >= t.len() && s.subrange(s.len() - t.len(), s.len() as int) == t
}

proof fn lemma_ends_with_concat(a: Seq<char>, t: Seq<char>)
    ensures
        ends_with(a + t, t),
{
    assert((a + t).subrange(a.len() as int, (a + t).len() as int) =~= t);
}

/// A Variable whose type is empty renders as empty text, standalone and as a
/// record member alike.
pub proof fn lemma_untyped_variable_is_empty(e: CodeItem, ind: Seq<char>, unit: Seq<char>, member: bool)
    requires
        e.kind == Kind::Variable,
        lookup(e.attributes@, AttrKey::Type, false, Seq::empty()).len() == 0,
    ensures
        render_item(e, ind, unit, member) == Ok::<Seq<char>, RenderError>(Seq::empty()),
{
}

/// In struct-member mode a typed Variable, a Function and a FunctionPointer
/// end with the field separator `,` and a line break, never with `;`.
pub proof fn lemma_member_ends_with_comma(e: CodeItem, ind: Seq<char>, unit: Seq<char>)
    requires
        e.kind == Kind::Variable || e.kind == Kind::Function || e.kind == Kind::FunctionPointer,
        e.kind == Kind::Variable ==> lookup(e.attributes@, AttrKey::Type, false, Seq::empty()).len() > 0,
    ensures
        render_item(e, ind, unit, true) matches Ok(s) ==> ends_with(s, ",\n"@),
{
    match render_item(e, ind, unit, true) {
        Ok(s) => {
            if e.kind == Kind::Variable {
                let n = lookup(e.attributes@, AttrKey::Name, false, Seq::empty());
                let t = lookup(e.attributes@, AttrKey::Type, false, Seq::empty());
                let v0 = lookup(e.attributes@, AttrKey::Value, true, Seq::empty());
                let v = if v0.len() == 0 { Seq::empty() } else { " = "@ + v0 };
                lemma_ends_with_concat(ind + n + ": "@ + t + v, ",\n"@);
            } else {
                let fptr = e.kind == Kind::FunctionPointer;
                let ty = lookup(e.attributes@, AttrKey::Type, false, Seq::empty());
                let q = fn_qualifier(e, fptr);
                let generic = q.contains('<');
                let q2 = if generic || q.len() == 0 { q } else { q + " "@ };
                let suffix = if generic { ">"@ } else { Seq::empty() };
                let ret = if ty.len() == 0 { Seq::empty() } else { " -> "@ + ty };
                let p = fn_params(e, e.children@.len() as int, ind)->Ok_0.0;
                let name = lookup(e.attributes@, AttrKey::Name, false, Seq::empty());
                lemma_ends_with_concat(ind + name + ": "@ + q2 + "fn("@ + p + ")"@ + ret + suffix, ",\n"@);
            }
        },
        Err(_) => {},
    }
}

/// A standalone Variable whose qualifier holds the generic-open marker `<`
/// gets exactly one closing `>`, placed right before the terminator, at any
/// indentation.
pub proof fn lemma_generic_variable_closed(e: CodeItem, ind: Seq<char>, unit: Seq<char>)
    requires
        e.kind == Kind::Variable,
        lookup(e.attributes@, AttrKey::Type, false, Seq::empty()).len() > 0,
        var_qualifier(e).contains('<'),
    ensures
        render_item(e, ind, unit, false) matches Ok(s) && ends_with(s, ">;\n"@),
{
    let n = lookup(e.attributes@, AttrKey::Name, false, Seq::empty());
    let t = lookup(e.attributes@, AttrKey::Type, false, Seq::empty());
    let v0 = lookup(e.attributes@, AttrKey::Value, true, Seq::empty());
    let v = if v0.len() == 0 { Seq::empty() } else { " = "@ + v0 };
    lemma_ends_with_concat(ind + "pub "@ + n + ": "@ + var_qualifier(e) + t + v, ">;\n"@);
}

/// A function whose qualifier holds the generic-open marker `<` gets exactly
/// one closing `>`, right after its parameter list and return type, with the
/// qualifier written with no space before `fn(`.
pub proof fn lemma_generic_function_closed(
    e: CodeItem,
    ind: Seq<char>,
    member: bool,
    fptr: bool,
    is_arg: bool,
)
    requires
        fn_qualifier(e, fptr).contains('<'),
        fn_params(e, e.children@.len() as int, ind) is Ok,
    ensures
        ({
            let name = lookup(e.attributes@, AttrKey::Name, false, Seq::empty());
            let ty = lookup(e.attributes@, AttrKey::Type, false, Seq::empty());
            let ret = if ty.len() == 0 { Seq::empty() } else { " -> "@ + ty };
            let end = if is_arg { Seq::empty() } else if member { ",\n"@ } else { ";\n"@ };
            let p = fn_params(e, e.children@.len() as int, ind)->Ok_0.0;
            let vis = if is_arg || member { Seq::empty() } else { "pub "@ };
            let indent = if is_arg { Seq::empty() } else { ind };
            render_function(e, ind, member, fptr, is_arg) == Ok::<Seq<char>, RenderError>(
                indent + vis + name + ": "@ + fn_qualifier(e, fptr) + "fn("@ + p + ")"@ + ret + ">"@ + end,
            )
        }),
{
}

/// An Enum with a child of a kind other than Variable or Attribute (a
/// Function, say) fails with an invalid-tree error naming the Enum as parent.
pub proof fn lemma_enum_rejects_illegal_child(e: CodeItem, j: int, ind: Seq<char>, unit: Seq<char>, member: bool)
    requires
        e.kind == Kind::Enum,
        0 <= j < e.children@.len(),
        e.children@[j].kind != Kind::Variable,
        e.children@[j].kind != Kind::Attribute,
    ensures
        render_item(e, ind, unit, member) matches Err(RenderError::InvalidIR { parent, child }) && parent
            == Kind::Enum,
{
    lemma_enum_parts_illegal(e.children@, j, ind, ind + unit);
}

proof fn lemma_enum_parts_illegal(cs: Seq<CodeItem>, j: int, ind: Seq<char>, inner: Seq<char>)
    requires
        0 <= j < cs.len(),
        cs[j].kind != Kind::Variable,
        cs[j].kind != Kind::Attribute,
    ensures
        enum_parts(cs, ind, inner) matches Err(RenderError::InvalidIR { parent, child }) && parent
            == Kind::Enum,
    decreases cs.len(),
{
    if j < cs.len() - 1 {
        assert(cs.drop_last()[j] == cs[j]);
        lemma_enum_parts_illegal(cs.drop_last(), j, ind, inner);
    } else {
        lemma_enum_parts_err_kind(cs.drop_last(), ind, inner);
    }
}

proof fn lemma_enum_parts_err_kind(cs: Seq<CodeItem>, ind: Seq<char>, inner: Seq<char>)
    ensures
        enum_parts(cs, ind, inner) is Err ==> (enum_parts(cs, ind, inner) matches Err(
            RenderError::InvalidIR { parent, child },
        ) && parent == Kind::Enum),
    decreases cs.len(),
{
    if cs.len() > 0 {
        lemma_enum_parts_err_kind(cs.drop_last(), ind, inner);
    }
}

/// The parameter text of a Variable child `c` that has no children of its own.
pub open spec fn plain_param(c: CodeItem) -> Seq<char> {
    let nm0 = lookup(c.attributes@, AttrKey::Name, true, Seq::empty());
    let nm = if nm0.len() == 0 { nm0 } else { nm0 + ": "@ };
    nm + lookup(c.attributes@, AttrKey::Type, false, Seq::empty())
}

/// A function with exactly one parameter emits no parameter separator.
pub proof fn lemma_single_param_no_separator(e: CodeItem, ind: Seq<char>)
    requires
        e.children@.len() == 1,
        e.children@[0].kind == Kind::Variable,
        e.children@[0].children@.len() == 0,
        lookup(e.children@[0].attributes@, AttrKey::Type, false, Seq::empty()).len() > 0,
    ensures
        fn_params(e, 1, ind) == Ok::<(Seq<char>, bool), RenderError>((plain_param(e.children@[0]), false)),
{
    let c = e.children@[0];
    assert(var_fptrs(c, 0, ind, false, Seq::empty(), true) == Ok::<(Seq<char>, bool), RenderError>(
        (Seq::empty(), true),
    ));
    assert(Seq::<char>::empty() + Seq::<char>::empty() + plain_param(c) =~= plain_param(c));
    assert(var_param(c, ind, false, Seq::empty(), true) == Ok::<(Seq<char>, bool), RenderError>(
        (plain_param(c), false),
    ));
    assert(fn_params(e, 0, ind) == Ok::<(Seq<char>, bool), RenderError>((Seq::empty(), true)));
}

/// A function with two parameters, the first of empty type, emits the second
/// with no separator before it.
pub proof fn lemma_skipped_param_no_separator(e: CodeItem, ind: Seq<char>)
    requires
        e.children@.len() == 2,
        e.children@[0].kind == Kind::Variable,
        e.children@[0].children@.len() == 0,
        lookup(e.children@[0].attributes@, AttrKey::Type, false, Seq::empty()).len() == 0,
        e.children@[1].kind == Kind::Variable,
        e.children@[1].children@.len() == 0,
        lookup(e.children@[1].attributes@, AttrKey::Type, false, Seq::empty()).len() > 0,
    ensures
        fn_params(e, 2, ind) == Ok::<(Seq<char>, bool), RenderError>((plain_param(e.children@[1]), false)),
{
    let c0 = e.children@[0];
    let c1 = e.children@[1];
    assert(fn_params(e, 0, ind) == Ok::<(Seq<char>, bool), RenderError>((Seq::empty(), true)));
    assert(var_fptrs(c0, 0, ind, true, Seq::empty(), true) == Ok::<(Seq<char>, bool), RenderError>(
        (Seq::empty(), true),
    ));
    assert(var_param(c0, ind, true, Seq::empty(), true) == Ok::<(Seq<char>, bool), RenderError>(
        (Seq::empty(), true),
    ));
    assert(fn_params(e, 1, ind) == Ok::<(Seq<char>, bool), RenderError>((Seq::empty(), true)));
    assert(var_fptrs(c1, 0, ind, true, Seq::empty(), true) == Ok::<(Seq<char>, bool), RenderError>(
        (Seq::empty(), true),
    ));
    assert(Seq::<char>::empty() + Seq::<char>::empty() + plain_param(c1) =~= plain_param(c1));
    assert(var_param(c1, ind, true, Seq::empty(), true) == Ok::<(Seq<char>, bool), RenderError>(
        (plain_param(c1), false),
    ));
}

/// Each constant of a flag set is named by the upper-case form of the
/// Variable's name.
pub proof fn lemma_flag_name_upper(c: CodeItem, inner: Seq<char>)
    ensures
        flag_entry(c, inner) == flag_line(
            inner,
            upper_of(lookup(c.attributes@, AttrKey::Name, false, Seq::empty())),
            lookup(c.attributes@, AttrKey::Value, false, Seq::empty()),
            lookup(c.attributes@, AttrKey::Type, true, Seq::empty()),
        ),
{
}

/// Two attribute lists with the same keys and the same values, in order.
pub open spec fn same_attrs(a: Seq<(AttrKey, String)>, b: Seq<(AttrKey, String)>) -> bool {
    &&& a.len() == b.len()
    &&& forall|i: int| 0 <= i < a.len() ==> (#[trigger] a[i]).0 == b[i].0 && a[i].1@ == b[i].1@
}

/// Two trees with the same kinds, attribute keys and values, and shape.
pub open spec fn same_item(a: CodeItem, b: CodeItem) -> bool
    decreases a,
{
    &&& a.kind == b.kind
    &&& same_attrs(a.attributes@, b.attributes@)
    &&& a.children@.len() == b.children@.len()
    &&& forall|i: int| 0 <= i < a.children@.len() ==> same_item(#[trigger] a.children@[i], b.children@[i])
}

/// Two lists of trees that are pairwise the same.
pub open spec fn same_items(a: Seq<CodeItem>, b: Seq<CodeItem>) -> bool {
    &&& a.len() == b.len()
    &&& forall|i: int| 0 <= i < a.len() ==> same_item(#[trigger] a[i], b[i])
}

proof fn lemma_same_attrs_drop_last(a: Seq<(AttrKey, String)>, b: Seq<(AttrKey, String)>)
    requires
        same_attrs(a, b),
        a.len() > 0,
    ensures
        same_attrs(a.drop_last(), b.drop_last()),
{
    assert forall|i: int| 0 <= i < a.drop_last().len() implies (#[trigger] a.drop_last()[i]).0 == b.drop_last()[i].0
        && a.drop_last()[i].1@ == b.drop_last()[i].1@ by {
        assert(a.drop_last()[i] == a[i] && b.drop_last()[i] == b[i]);
    }
}

proof fn lemma_lookup_same(a: Seq<(AttrKey, String)>, b: Seq<(AttrKey, String)>)
    requires
        same_attrs(a, b),
    ensures
        forall|key: AttrKey, ne: bool, d: Seq<char>| #[trigger] lookup(a, key, ne, d) == lookup(b, key, ne, d),
        forall|ind: Seq<char>| #[trigger] attr_lines(a, ind) == attr_lines(b, ind),
    decreases a.len(),
{
    if a.len() > 0 {
        lemma_same_attrs_drop_last(a, b);
        lemma_lookup_same(a.drop_last(), b.drop_last());
        let last = a.len() - 1;
        assert(a[last].0 == b[last].0 && a[last].1@ == b[last].1@);
        assert forall|key: AttrKey, ne: bool, d: Seq<char>| #[trigger]
            lookup(a, key, ne, d) == lookup(b, key, ne, d) by {
            assert(lookup(a.drop_last(), key, ne, d) == lookup(b.drop_last(), key, ne, d));
        }
        assert forall|ind: Seq<char>| #[trigger] attr_lines(a, ind) == attr_lines(b, ind) by {
            assert(attr_lines(a.drop_last(), ind) == attr_lines(b.drop_last(), ind));
        }
    } else {
        assert forall|key: AttrKey, ne: bool, d: Seq<char>| #[trigger]
            lookup(a, key, ne, d) == lookup(b, key, ne, d) by {}
        assert forall|ind: Seq<char>| #[trigger] attr_lines(a, ind) == attr_lines(b, ind) by {}
    }
}

proof fn lemma_same_children(a: CodeItem, b: CodeItem)
    requires
        same_item(a, b),
    ensures
        same_attrs(a.attributes@, b.attributes@),
        forall|key: AttrKey, ne: bool, d: Seq<char>|
            #[trigger] lookup(a.attributes@, key, ne, d) == lookup(b.attributes@, key, ne, d),
        forall|ind: Seq<char>| #[trigger] attr_lines(a.attributes@, ind) == attr_lines(b.attributes@, ind),
        same_items(a.children@, b.children@),
{
    lemma_lookup_same(a.attributes@, b.attributes@);
}

proof fn lemma_enum_parts_same(a: Seq<CodeItem>, b: Seq<CodeItem>, ind: Seq<char>, inner: Seq<char>)
    requires
        same_items(a, b),
    ensures
        enum_parts(a, ind, inner) == enum_parts(b, ind, inner),
        flag_parts(a, ind, inner) == flag_parts(b, ind, inner),
    decreases a.len(),
{
    if a.len() > 0 {
        assert forall|i: int| 0 <= i < a.drop_last().len() implies same_item(
            #[trigger] a.drop_last()[i],
            b.drop_last()[i],
        ) by {
            assert(a.drop_last()[i] == a[i] && b.drop_last()[i] == b[i]);
        }
        lemma_enum_parts_same(a.drop_last(), b.drop_last(), ind, inner);
        lemma_same_children(a.last(), b.last());
    }
}

proof fn lemma_function_same(a: CodeItem, b: CodeItem, ind: Seq<char>, member: bool, fptr: bool, is_arg: bool)
    requires
        same_item(a, b),
    ensures
        render_function(a, ind, member, fptr, is_arg) == render_function(b, ind, member, fptr, is_arg),
    decreases a, 3int, 0int,
{
    lemma_same_children(a, b);
    lemma_params_same(a, b, a.children@.len() as int, ind);
}

proof fn lemma_params_same(a: CodeItem, b: CodeItem, n: int, ind: Seq<char>)
    requires
        same_item(a, b),
    ensures
        fn_params(a, n, ind) == fn_params(b, n, ind),
    decreases a, 2int, n,
{
    lemma_same_children(a, b);
    if 0 < n <= a.children@.len() {
        lemma_params_same(a, b, n - 1, ind);
        let c1 = a.children@[n - 1];
        let c2 = b.children@[n - 1];
        assert(same_item(c1, c2));
        match fn_params(a, n - 1, ind) {
            Ok((s, first)) => {
                if c1.kind == Kind::Variable {
                    lemma_var_param_same(c1, c2, ind, a.children@.len() > 1, s, first);
                } else if c1.kind == Kind::FunctionPointer {
                    lemma_function_same(c1, c2, ind, false, true, true);
                }
            },
            Err(_) => {},
        }
    }
}

proof fn lemma_var_param_same(
    a: CodeItem,
    b: CodeItem,
    ind: Seq<char>,
    comma: bool,
    s: Seq<char>,
    first: bool,
)
    requires
        same_item(a, b),
    ensures
        var_param(a, ind, comma, s, first) == var_param(b, ind, comma, s, first),
    decreases a, 1int, a.children@.len() + 1,
{
    lemma_same_children(a, b);
    lemma_var_fptrs_same(a, b, a.children@.len() as int, ind, comma, s, first);
}

proof fn lemma_var_fptrs_same(
    a: CodeItem,
    b: CodeItem,
    m: int,
    ind: Seq<char>,
    comma: bool,
    s: Seq<char>,
    first: bool,
)
    requires
        same_item(a, b),
    ensures
        var_fptrs(a, m, ind, comma, s, first) == var_fptrs(b, m, ind, comma, s, first),
    decreases a, 1int, m,
{
    lemma_same_children(a, b);
    if 0 < m <= a.children@.len() {
        lemma_var_fptrs_same(a, b, m - 1, ind, comma, s, first);
        let v1 = a.children@[m - 1];
        let v2 = b.children@[m - 1];
        assert(same_item(v1, v2));
        lemma_function_same(v1, v2, ind, false, true, true);
        lemma_holder_same(v1, v2);
    }
}

proof fn lemma_holder_same(a: CodeItem, b: CodeItem)
    requires
        same_item(a, b),
    ensures
        function_holder(a) == function_holder(b),
    decreases a, 1int, 0int,
{
    lemma_holder_upto_same(a, b, a.children@.len() as int);
}

proof fn lemma_holder_upto_same(a: CodeItem, b: CodeItem, n: int)
    requires
        same_item(a, b),
    ensures
        function_holder_upto(a, n) == function_holder_upto(b, n),
    decreases a, 0int, n,
{
    if 0 < n <= a.children@.len() {
        lemma_holder_upto_same(a, b, n - 1);
        let c1 = a.children@[n - 1];
        let c2 = b.children@[n - 1];
        assert(same_item(c1, c2));
        lemma_holder_same(c1, c2);
    }
}

proof fn lemma_struct_parts_same(a: CodeItem, b: CodeItem, n: int, ind: Seq<char>, unit: Seq<char>)
    requires
        same_item(a, b),
    ensures
        struct_parts(a, n, ind, unit) == struct_parts(b, n, ind, unit),
    decreases a, 4int, n,
{
    lemma_same_children(a, b);
    if 0 < n <= a.children@.len() {
        lemma_struct_parts_same(a, b, n - 1, ind, unit);
        let c1 = a.children@[n - 1];
        let c2 = b.children@[n - 1];
        assert(same_item(c1, c2));
        lemma_same_children(c1, c2);
        lemma_item_same(c1, c2, ind + unit, unit, true);
    }
}

/// Trees with the same kinds, attribute values and shape render alike.
pub proof fn lemma_item_same(a: CodeItem, b: CodeItem, ind: Seq<char>, unit: Seq<char>, member: bool)
    requires
        same_item(a, b),
    ensures
        render_item(a, ind, unit, member) == render_item(b, ind, unit, member),
    decreases a, 6int, 0int,
{
    lemma_same_children(a, b);
    match a.kind {
        Kind::Enum => {
            lemma_enum_parts_same(a.children@, b.children@, ind, ind + unit);
        },
        Kind::BitFlagSet => {
            lemma_enum_parts_same(a.children@, b.children@, ind + unit, ind + unit + unit);
        },
        Kind::Function => {
            lemma_function_same(a, b, ind, member, false, false);
        },
        Kind::FunctionPointer => {
            lemma_function_same(a, b, ind, member, true, false);
        },
        Kind::Struct => {
            lemma_struct_parts_same(a, b, a.children@.len() as int, ind, unit);
        },
        _ => {},
    }
}

/// Lists of trees with the same kinds, attribute values and shape render to
/// the same text.
pub proof fn lemma_render_same(a: Seq<CodeItem>, b: Seq<CodeItem>, width: u8, tab: char)
    requires
        same_items(a, b),
    ensures
        render(a, width, tab) == render(b, width, tab),
{
    lemma_render_items_same(a, b, repeat(tab, width as nat));
}

proof fn lemma_render_items_same(a: Seq<CodeItem>, b: Seq<CodeItem>, unit: Seq<char>)
    requires
        same_items(a, b),
    ensures
        render_items(a, unit) == render_items(b, unit),
    decreases a.len(),
{
    if a.len() > 0 {
        assert forall|i: int| 0 <= i < a.drop_last().len() implies same_item(
            #[trigger] a.drop_last()[i],
            b.drop_last()[i],
        ) by {
            assert(a.drop_last()[i] == a[i] && b.drop_last()[i] == b[i]);
        }
        lemma_render_items_same(a.drop_last(), b.drop_last(), unit);
        lemma_item_same(a.last(), b.last(), Seq::empty(), unit, false);
    }
}

/// Whether no attribute value in `attrs` holds the character `ch`.
pub open spec fn attrs_free_of(attrs: Seq<(AttrKey, String)>, ch: char) -> bool {
    forall|i: int| 0 <= i < attrs.len() ==> !(#[trigger] attrs[i]).1@.contains(ch)
}

proof fn lemma_concat_free(a: Seq<char>, b: Seq<char>, ch: char)
    requires
        !a.contains(ch),
        !b.contains(ch),
    ensures
        !(a + b).contains(ch),
{
    assert forall|i: int| 0 <= i < (a + b).len() implies (a + b)[i] != ch by {
        if i < a.len() {
            assert((a + b)[i] == a[i]);
        } else {
            assert((a + b)[i] == b[i - a.len()]);
        }
    }
}

proof fn lemma_lookup_free(attrs: Seq<(AttrKey, String)>, key: AttrKey, ne: bool, d: Seq<char>, ch: char)
    requires
        attrs_free_of(attrs, ch),
        !d.contains(ch),
    ensures
        !lookup(attrs, key, ne, d).contains(ch),
    decreases attrs.len(),
{
    if attrs.len() > 0 {
        assert(attrs_free_of(attrs.drop_last(), ch)) by {
            assert forall|i: int| 0 <= i < attrs.drop_last().len() implies !(
            #[trigger] attrs.drop_last()[i]).1@.contains(ch) by {
                assert(attrs.drop_last()[i] == attrs[i]);
            }
        }
        assert(attrs.last() == attrs[attrs.len() - 1]);
        lemma_lookup_free(attrs.drop_last(), key, ne, d, ch);
    }
}

/// A function with exactly one parameter, a Variable without children of its
/// own, emits no parameter separator: its parameter list holds no `,` when
/// none of that Variable's attribute values does.
pub proof fn lemma_one_param_has_no_comma(e: CodeItem, ind: Seq<char>)
    requires
        e.children@.len() == 1,
        e.children@[0].kind == Kind::Variable,
        e.children@[0].children@.len() == 0,
        attrs_free_of(e.children@[0].attributes@, ','),
    ensures
        fn_params(e, 1, ind) matches Ok((p, _f)) && !p.contains(','),
{
    let c = e.children@[0];
    let nm0 = lookup(c.attributes@, AttrKey::Name, true, Seq::empty());
    let t = lookup(c.attributes@, AttrKey::Type, false, Seq::empty());
    assert(!Seq::<char>::empty().contains(','));
    lemma_lookup_free(c.attributes@, AttrKey::Name, true, Seq::empty(), ',');
    lemma_lookup_free(c.attributes@, AttrKey::Type, false, Seq::empty(), ',');
    reveal_strlit(": ");
    assert(!": "@.contains(','));
    let nm = if nm0.len() == 0 { nm0 } else { nm0 + ": "@ };
    if nm0.len() != 0 {
        lemma_concat_free(nm0, ": "@, ',');
    }
    lemma_concat_free(Seq::<char>::empty(), Seq::<char>::empty(), ',');
    lemma_concat_free(Seq::<char>::empty() + Seq::<char>::empty(), nm, ',');
    lemma_concat_free(Seq::<char>::empty() + Seq::<char>::empty() + nm, t, ',');
    assert(var_fptrs(c, 0, ind, false, Seq::empty(), true) == Ok::<(Seq<char>, bool), RenderError>(
        (Seq::empty(), true),
    ));
    assert(fn_params(e, 0, ind) == Ok::<(Seq<char>, bool), RenderError>((Seq::empty(), true)));
    assert(separator(false, true) == Seq::<char>::empty());
    if t.len() == 0 {
        assert(var_param(c, ind, false, Seq::empty(), true) == Ok::<(Seq<char>, bool), RenderError>(
            (Seq::empty(), true),
        ));
    } else {
        assert(var_param(c, ind, false, Seq::empty(), true) == Ok::<(Seq<char>, bool), RenderError>(
            (Seq::<char>::empty() + Seq::<char>::empty() + nm + t, false),
        ));
    }
}

/// Whether `t` occurs in `s` as a contiguous run.
pub open spec fn is_infix(t: Seq<char>, s: Seq<char>) -> bool {
    exists|k: int| 0 <= k && k + t.len() <= s.len() && #[trigger] s.subrange(k, k + t.len()) == t
}

proof fn lemma_infix_extend(t: Seq<char>, x: Seq<char>, s: Seq<char>, y: Seq<char>)
    requires
        is_infix(t, s),
    ensures
        is_infix(t, x + s + y),
{
    let k = choose|k: int| 0 <= k && k + t.len() <= s.len() && #[trigger] s.subrange(k, k + t.len()) == t;
    let w = x + s + y;
    assert(w.subrange(x.len() + k, x.len() + k + t.len()) =~= s.subrange(k, k + t.len()));
}

proof fn lemma_infix_self(t: Seq<char>)
    ensures
        is_infix(t, t),
{
    let k: int = 0;
    assert(t.subrange(k, k + t.len()) =~= t);
}

proof fn lemma_flag_parts_entry(cs: Seq<CodeItem>, sp: Seq<char>, inner: Seq<char>, j: int)
    requires
        0 <= j < cs.len(),
        cs[j].kind == Kind::Variable,
        flag_parts(cs, sp, inner) is Ok,
    ensures
        is_infix(flag_entry(cs[j], inner), flag_parts(cs, sp, inner)->Ok_0.1),
    decreases cs.len(),
{
    let d = cs.drop_last();
    let b0 = flag_parts(d, sp, inner)->Ok_0.1;
    if j < cs.len() - 1 {
        assert(d[j] == cs[j]);
        lemma_flag_parts_entry(d, sp, inner, j);
        if cs.last().kind == Kind::Variable {
            lemma_infix_extend(flag_entry(cs[j], inner), Seq::empty(), b0, flag_entry(cs.last(), inner));
            assert(Seq::<char>::empty() + b0 + flag_entry(cs.last(), inner) =~= b0 + flag_entry(
                cs.last(),
                inner,
            ));
        }
    } else {
        let t = flag_entry(cs[j], inner);
        lemma_infix_self(t);
        lemma_infix_extend(t, b0, t, Seq::empty());
        assert(b0 + t + Seq::<char>::empty() =~= b0 + t);
    }
}

/// Each Variable child of a flag set that renders shows up in the text as
/// its constant line, named by the upper-case form of its Name.
pub proof fn lemma_flag_set_names_upper(e: CodeItem, ind: Seq<char>, unit: Seq<char>, j: int)
    requires
        e.kind == Kind::BitFlagSet,
        0 <= j < e.children@.len(),
        e.children@[j].kind == Kind::Variable,
        render_bitflags(e, ind, unit) is Ok,
    ensures
        is_infix(
            flag_line(
                ind + unit + unit,
                upper_of(lookup(e.children@[j].attributes@, AttrKey::Name, false, Seq::empty())),
                lookup(e.children@[j].attributes@, AttrKey::Value, false, Seq::empty()),
                lookup(e.children@[j].attributes@, AttrKey::Type, true, Seq::empty()),
            ),
            render_bitflags(e, ind, unit)->Ok_0,
        ),
{
    let sp = ind + unit;
    let inner = sp + unit;
    lemma_flag_parts_entry(e.children@, sp, inner, j);
    let (a, b) = flag_parts(e.children@, sp, inner)->Ok_0;
    let name = lookup(e.attributes@, AttrKey::Name, true, Seq::empty());
    let ty = lookup(e.attributes@, AttrKey::Type, true, Seq::empty());
    let attr = lookup(e.attributes@, AttrKey::AttributeText, true, Seq::empty());
    let x = ind + flags_open() + a + "\n"@ + decoration(sp, attr) + sp + "flags"@ + spaced(name) + ":"@
        + spaced(ty) + " {\n"@;
    let y = sp + "}\n"@ + ind + "}\n\n"@;
    lemma_infix_extend(flag_entry(e.children@[j], inner), x, b, y);
    assert(render_bitflags(e, ind, unit)->Ok_0 =~= x + b + y);
}

/// A typed Variable in struct-member mode holds no statement terminator `;`
/// anywhere when neither its indentation nor its attribute values do, with
/// a generic-marked qualifier too.
pub proof fn lemma_member_variable_has_no_semicolon(e: CodeItem, ind: Seq<char>, unit: Seq<char>)
    requires
        e.kind == Kind::Variable,
        lookup(e.attributes@, AttrKey::Type, false, Seq::empty()).len() > 0,
        attrs_free_of(e.attributes@, ';'),
        !ind.contains(';'),
    ensures
        render_item(e, ind, unit, true) matches Ok(s) && !s.contains(';') && ends_with(s, ",\n"@),
{
    let n = lookup(e.attributes@, AttrKey::Name, false, Seq::empty());
    let t = lookup(e.attributes@, AttrKey::Type, false, Seq::empty());
    let v0 = lookup(e.attributes@, AttrKey::Value, true, Seq::empty());
    let v = if v0.len() == 0 { Seq::empty() } else { " = "@ + v0 };
    assert(!Seq::<char>::empty().contains(';'));
    lemma_lookup_free(e.attributes@, AttrKey::Name, false, Seq::empty(), ';');
    lemma_lookup_free(e.attributes@, AttrKey::Type, false, Seq::empty(), ';');
    lemma_lookup_free(e.attributes@, AttrKey::Value, true, Seq::empty(), ';');
    reveal_strlit(": ");
    reveal_strlit(" = ");
    reveal_strlit(",\n");
    assert(!": "@.contains(';'));
    assert(!" = "@.contains(';'));
    assert(!",\n"@.contains(';'));
    if v0.len() != 0 {
        lemma_concat_free(" = "@, v0, ';');
    }
    lemma_concat_free(ind, n, ';');
    lemma_concat_free(ind + n, ": "@, ';');
    lemma_concat_free(ind + n + ": "@, t, ';');
    lemma_concat_free(ind + n + ": "@ + t, v, ';');
    lemma_concat_free(ind + n + ": "@ + t + v, ",\n"@, ';');
    lemma_ends_with_concat(ind + n + ": "@ + t + v, ",\n"@);
}

/// A standalone Variable with a generic-marked qualifier gets exactly one
/// `>` from the renderer: when neither its indentation nor its attribute
/// values hold `>`, the text is a `>`-free part followed by `>;` and a line break.
pub proof fn lemma_generic_variable_single_close(e: CodeItem, ind: Seq<char>, unit: Seq<char>)
    requires
        e.kind == Kind::Variable,
        lookup(e.attributes@, AttrKey::Type, false, Seq::empty()).len() > 0,
        var_qualifier(e).contains('<'),
        attrs_free_of(e.attributes@, '>'),
        !ind.contains('>'),
    ensures
        exists|x: Seq<char>| !x.contains('>') && render_item(e, ind, unit, false) == Ok::<Seq<char>, RenderError>(x + ">;\n"@),
{
    let n = lookup(e.attributes@, AttrKey::Name, false, Seq::empty());
    let t = lookup(e.attributes@, AttrKey::Type, false, Seq::empty());
    let v0 = lookup(e.attributes@, AttrKey::Value, true, Seq::empty());
    let v = if v0.len() == 0 { Seq::empty() } else { " = "@ + v0 };
    let q = var_qualifier(e);
    reveal_strlit("const");
    reveal_strlit("pub ");
    reveal_strlit(": ");
    reveal_strlit(" = ");
    assert(!Seq::<char>::empty().contains('>'));
    assert(!"const"@.contains('>'));
    assert(!"pub "@.contains('>'));
    assert(!": "@.contains('>'));
    assert(!" = "@.contains('>'));
    lemma_lookup_free(e.attributes@, AttrKey::Name, false, Seq::empty(), '>');
    lemma_lookup_free(e.attributes@, AttrKey::Type, false, Seq::empty(), '>');
    lemma_lookup_free(e.attributes@, AttrKey::Value, true, Seq::empty(), '>');
    lemma_lookup_free(e.attributes@, AttrKey::Qualifier, false, "const"@, '>');
    if v0.len() != 0 {
        lemma_concat_free(" = "@, v0, '>');
    }
    lemma_concat_free(ind, "pub "@, '>');
    lemma_concat_free(ind + "pub "@, n, '>');
    lemma_concat_free(ind + "pub "@ + n, ": "@, '>');
    lemma_concat_free(ind + "pub "@ + n + ": "@, q, '>');
    lemma_concat_free(ind + "pub "@ + n + ": "@ + q, t, '>');
    lemma_concat_free(ind + "pub "@ + n + ": "@ + q + t, v, '>');
    let x = ind + "pub "@ + n + ": "@ + q + t + v;
    assert(render_item(e, ind, unit, false) == Ok::<Seq<char>, RenderError>(x + ">;\n"@));
}

} // verus!
