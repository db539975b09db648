use vstd::prelude::*;

verus! {

/// The closed vocabulary of construct kinds a node can describe.
#[derive(Clone, Copy, Debug, PartialEq, Eq, Structural)]
pub enum Kind {
    Variable,
    Function,
    FunctionPointer,
    Enum,
    Struct,
    BitFlagSet,
    Attribute,
}

/// The closed vocabulary of attribute keys.
#[derive(Clone, Copy, Debug, PartialEq, Eq, Structural)]
pub enum AttrKey {
    Name,
    Type,
    Value,
    Qualifier,
    AttributeText,
}

/// One node of the code tree: a kind, ordered string attributes and ordered children.
#[derive(Debug)]
pub struct CodeItem {
    pub kind: Kind,
    pub attributes: Vec<(AttrKey, String)>,
    pub children: Vec<CodeItem>,
}

/// Substitution rules and global formatting options for one target language.
/// Each dictionary is an ordered list of (original spelling, replacement) pairs.
pub struct CodeConfig {
    pub type_dict: Vec<(String, String)>,
    pub name_dict: Vec<(String, String)>,
    pub global_cfg: Vec<(String, String)>,
}

/// The value of the last attribute under `key` (when `nonempty_only`, the last
/// one with a non-empty value), or `default` when there is none.
pub open spec fn lookup(
    attrs: Seq<(AttrKey, String)>,
    key: AttrKey,
    nonempty_only: bool,
    default: Seq<char>,
) -> Seq<char>
    decreases attrs.len(),
{
    if attrs.len() == 0 {
        default
    } else {
        let a = attrs.last();
        if a.0 == key && (!nonempty_only || a.1@.len() > 0) {
            a.1@
        } else {
            lookup(attrs.drop_last(), key, nonempty_only, default)
        }
    }
}

/// Executable attribute lookup; see `lookup`.
pub fn attr_value(
    attrs: &Vec<(AttrKey, String)>,
    key: AttrKey,
    nonempty_only: bool,
    default: &str,
) -> (r: String)
    ensures
        r@ == lookup(attrs@, key, nonempty_only, default@),
{
    let mut r = default.to_owned();
    let mut i: usize = 0;
    while i < attrs.len()
        invariant
            0 <= i <= attrs.len(),
            r@ == lookup(attrs@.subrange(0, i as int), key, nonempty_only, default@),
        decreases attrs.len() - i,
    {
        let a = &attrs[i];
        if a.0 == key && (!nonempty_only || !a.1.as_str().is_empty()) {
            r = a.1.clone();
        }
        proof {
            assert(attrs@.subrange(0, i + 1).drop_last() =~= attrs@.subrange(0, i as int));
        }
        i += 1;
    }
    proof {
        assert(attrs@.subrange(0, attrs.len() as int) =~= attrs@);
    }
    r
}

} // verus!
