//! XML attributes with an optional namespace alias.
use vstd::prelude::*;
use crate::dom::namespace::{XmlNamespace, ScopeModel, scope_url};
use crate::text::{first_colon, local_of, prefix_of, qualify, lemma_first_colon, find_colon, join_qualified, copy_string};

verus! {

/// The mathematical model of an attribute.
pub ghost struct AttributeModel {
    /// Local name, without the namespace prefix.
    pub name: Seq<char>,
    /// The value.
    pub value: Seq<char>,
    /// The namespace alias, when the raw name had a prefix.
    pub ns_alias: Option<Seq<char>>,
}

/// The model of the attribute built from a raw `name` and a `value`: the name is split at
/// its first `:` into an alias and a local name.
pub open spec fn attribute_from_raw(name: Seq<char>, value: Seq<char>) -> AttributeModel {
    AttributeModel { name: local_of(name), value: value, ns_alias: prefix_of(name) }
}

/// The namespaced name of an attribute model (`alias:name`, or `name` for no or empty alias).
pub open spec fn attribute_ns_name(a: AttributeModel) -> Seq<char> {
    qualify(a.ns_alias, a.name)
}

/// The attribute's alias, if any, is bound in scope `s`.
pub open spec fn alias_in_scope(a: AttributeModel, s: ScopeModel) -> bool {
    match a.ns_alias {
        Some(al) => scope_url(s, al) is Some,
        None => true,
    }
}

/// Represents an XML attribute with optional namespace information.
#[derive(Debug, Default)]
pub struct XmlAttribute {
    name: String,
    value: String,
    ns_alias: Option<String>,
}

/// The model of an optional string.
pub open spec fn opt_view(o: Option<String>) -> Option<Seq<char>> {
    match o {
        Some(s) => Some(s@),
        None => None,
    }
}

impl View for XmlAttribute {
    type V = AttributeModel;

    closed spec fn view(&self) -> AttributeModel {
        AttributeModel { name: self.name@, value: self.value@, ns_alias: opt_view(self.ns_alias) }
    }
}

impl XmlAttribute {
    /// Constructs an attribute from a raw name and value; the name is split on its first
    /// `':'` into a namespace alias and a local name.
    pub fn new(name: String, value: String) -> (r: XmlAttribute)
        ensures
            r@ == attribute_from_raw(name@, value@),
    {
        match find_colon(name.as_str()) {
            Some(pos) => {
                let len = name.as_str().unicode_len();
                let ns = String::from_str(name.as_str().substring_char(0, pos));
                let local = String::from_str(name.as_str().substring_char(pos + 1, len));
                proof {
                    assert(name@.subrange(0, pos as int) =~= name@.take(pos as int));
                    assert(name@.subrange(pos + 1, len as int) =~= name@.skip(pos + 1));
                }
                XmlAttribute { name: local, value, ns_alias: Some(ns) }
            },
            None => XmlAttribute { name, value, ns_alias: None },
        }
    }

    /// Returns the attribute's local name without namespace prefix.
    pub fn get_name(&self) -> (r: &str)
        ensures
            r@ == self@.name,
    {
        self.name.as_str()
    }

    /// Returns the attribute's name with its namespace alias if present and non-empty.
    pub fn get_ns_name(&self) -> (r: String)
        ensures
            r@ == attribute_ns_name(self@),
    {
        match &self.ns_alias {
            Some(alias) => join_qualified(alias.as_str(), self.name.as_str()),
            None => copy_string(&self.name),
        }
    }

    /// Returns the value of the attribute.
    pub fn get_value(&self) -> (r: &str)
        ensures
            r@ == self@.value,
    {
        self.value.as_str()
    }

    /// Returns the namespace alias stored on the attribute, if any.
    pub fn get_ns_alias(&self) -> (r: Option<&str>)
        ensures
            match r {
                Some(a) => self@.ns_alias == Some(a@),
                None => self@.ns_alias is None,
            },
    {
        match &self.ns_alias {
            Some(a) => Some(a.as_str()),
            None => None,
        }
    }

    /// Whether this attribute is unprefixed or its alias is declared in `namespace_context`.
    pub(crate) fn is_valid_ns_alias(&self, namespace_context: &XmlNamespace) -> (r: bool)
        ensures
            r == alias_in_scope(self@, namespace_context@),
    {
        match &self.ns_alias {
            Some(ns) => namespace_context.is_valid_ns_alias(ns.as_str()),
            None => true,
        }
    }

    /// A copy of the attribute.
    pub(crate) fn duplicate(&self) -> (r: XmlAttribute)
        ensures
            r@ == self@,
    {
        let ns_alias = match &self.ns_alias {
            Some(a) => Some(copy_string(a)),
            None => None,
        };
        XmlAttribute { name: copy_string(&self.name), value: copy_string(&self.value), ns_alias }
    }
}

/// The namespaced name of an attribute built from a raw name is that name again, unless
/// the name starts with `:` (an empty prefix, which is dropped).
pub proof fn lemma_attribute_name_roundtrip(name: Seq<char>, value: Seq<char>)
    requires
        !(name.len() > 0 && name[0] == ':'),
    ensures
        attribute_ns_name(attribute_from_raw(name, value)) == name,
        attribute_from_raw(name, value).value == value,
{
    if name.contains(':') {
        lemma_first_colon(name);
        let p = first_colon(name);
        assert(p != 0);
        assert(name.take(p) + seq![':'] + name.skip(p + 1) =~= name);
    }
}

impl Clone for XmlAttribute {
    /// A copy of this attribute.
    fn clone(&self) -> (r: Self)
        ensures
            r@ == self@,
    {
        self.duplicate()
    }
}

} // verus!
