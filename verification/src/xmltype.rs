//! The XML serialization tag of a schema member: either an attribute or an
//! element, together with the fixed two-field wire shape used for
//! interchange with downstream tooling.

use vstd::prelude::*;
use vstd::string::StrSliceExecFns;
use vstd::string::StringExecFns;

verus! {

/// Whether a schema member serializes as an XML attribute or an XML element.
#[derive(Debug, PartialEq, Clone)]
pub enum XMLType {
    /// A member carried as an XML attribute.
    Attribute { is_attr: bool, name: String },
    /// A member carried as an XML element.
    Element { is_attr: bool, name: String },
}

pub ghost enum XMLTypeV {
    Attribute { is_attr: bool, name: Seq<char> },
    Element { is_attr: bool, name: Seq<char> },
}

impl DeepView for XMLType {
    type V = XMLTypeV;

    open spec fn deep_view(&self) -> XMLTypeV {
        match self {
            XMLType::Attribute { is_attr, name } => XMLTypeV::Attribute {
                is_attr: *is_attr,
                name: name@,
            },
            XMLType::Element { is_attr, name } => XMLTypeV::Element {
                is_attr: *is_attr,
                name: name@,
            },
        }
    }
}

/// The redundant `is_attr` field agrees with the variant.
pub open spec fn xml_wf(x: XMLTypeV) -> bool {
    match x {
        XMLTypeV::Attribute { is_attr, .. } => is_attr == true,
        XMLTypeV::Element { is_attr, .. } => is_attr == false,
    }
}

/// The tag denoted by a raw annotation: a leading `@` denotes an attribute
/// whose name excludes the `@`; any other token denotes an element named by
/// the token itself.
pub open spec fn xml_type_of(s: Seq<char>) -> XMLTypeV {
    if s.len() > 0 && s[0] == '@' {
        XMLTypeV::Attribute { is_attr: true, name: s.subrange(1, s.len() as int) }
    } else {
        XMLTypeV::Element { is_attr: false, name: s }
    }
}

/// The two-field wire shape of a tag.
#[derive(Debug, PartialEq, Clone)]
pub struct XMLWire {
    pub is_attr: bool,
    pub name: String,
}

pub ghost struct XMLWireV {
    pub is_attr: bool,
    pub name: Seq<char>,
}

impl DeepView for XMLWire {
    type V = XMLWireV;

    open spec fn deep_view(&self) -> XMLWireV {
        XMLWireV { is_attr: self.is_attr, name: self.name@ }
    }
}

/// The wire shape of a tag: the stored flag and name, emitted literally.
pub open spec fn wire_of(x: XMLTypeV) -> XMLWireV {
    match x {
        XMLTypeV::Attribute { is_attr, name } => XMLWireV { is_attr, name },
        XMLTypeV::Element { is_attr, name } => XMLWireV { is_attr, name },
    }
}

/// The tag a wire shape reconstructs: the flag selects the variant.
pub open spec fn xml_of_wire(w: XMLWireV) -> XMLTypeV {
    if w.is_attr {
        XMLTypeV::Attribute { is_attr: true, name: w.name }
    } else {
        XMLTypeV::Element { is_attr: false, name: w.name }
    }
}

impl XMLType {
    /// Parses a raw type annotation into its tag.
    pub fn from_str(s: &str) -> (r: Result<XMLType, String>)
        ensures
            match r {
                Ok(x) => x.deep_view() == xml_type_of(s@) && xml_wf(x.deep_view()),
                Err(_) => false,
            },
    {
        let n: usize = s.unicode_len();
        if n > 0 && s.get_char(0) == '@' {
            Ok(XMLType::Attribute { is_attr: true, name: String::from_str(s.substring_char(1, n)) })
        } else {
            Ok(XMLType::Element { is_attr: false, name: String::from_str(s) })
        }
    }

    /// Emits the two-field wire shape of this tag.
    pub fn to_wire(&self) -> (w: XMLWire)
        ensures
            w.deep_view() == wire_of(self.deep_view()),
    {
        match self {
            XMLType::Attribute { is_attr, name } => XMLWire {
                is_attr: *is_attr,
                name: name.clone(),
            },
            XMLType::Element { is_attr, name } => XMLWire { is_attr: *is_attr, name: name.clone() },
        }
    }

    /// Reconstructs the tag a wire shape denotes.
    pub fn from_wire(w: XMLWire) -> (x: XMLType)
        ensures
            x.deep_view() == xml_of_wire(w.deep_view()),
            xml_wf(x.deep_view()),
    {
        if w.is_attr {
            XMLType::Attribute { is_attr: true, name: w.name }
        } else {
            XMLType::Element { is_attr: false, name: w.name }
        }
    }
}

/// Emitting a well-formed tag and reading the shape back reconstructs the tag.
pub proof fn lemma_wire_round_trip(x: XMLTypeV)
    requires
        xml_wf(x),
    ensures
        xml_of_wire(wire_of(x)) == x,
{
}

/// Reading any wire shape and emitting it again reproduces the shape exactly,
/// redundant flag included.
pub proof fn lemma_wire_round_trip_back(w: XMLWireV)
    ensures
        wire_of(xml_of_wire(w)) == w,
{
}

} // verus!
