//! Classification of primitive scalar type names and their JSON-schema
//! equivalents.

use vstd::prelude::*;
use vstd::string::StringExecFns;
use crate::strutil::str_eq_str;

verus! {

/// Whether `s` is one of the recognized primitive scalar type names.
pub open spec fn is_primitive_name(s: Seq<char>) -> bool {
    s == "string"@ || s == "float"@ || s == "integer"@ || s == "boolean"@ || s == "bool"@
        || s == "null"@
}

/// The JSON-schema type name of a primitive type name: the name itself,
/// except that `float` maps to `number` and `bool` to `boolean`.
pub open spec fn json_of_primitive(s: Seq<char>) -> Seq<char> {
    if s == "float"@ {
        "number"@
    } else if s == "bool"@ {
        "boolean"@
    } else {
        s
    }
}

/// The subsequence of names that are not primitive.
pub open spec fn non_primitives_from(s: Seq<Seq<char>>, i: int) -> Seq<Seq<char>>
    decreases s.len() - i when 0 <= i <= s.len()
{
    if i >= s.len() {
        Seq::empty()
    } else if !is_primitive_name(s[i]) {
        seq![s[i]] + non_primitives_from(s, i + 1)
    } else {
        non_primitives_from(s, i + 1)
    }
}

/// The subsequence of names that are primitive.
pub open spec fn primitives_from(s: Seq<Seq<char>>, i: int) -> Seq<Seq<char>>
    decreases s.len() - i when 0 <= i <= s.len()
{
    if i >= s.len() {
        Seq::empty()
    } else if is_primitive_name(s[i]) {
        seq![s[i]] + primitives_from(s, i + 1)
    } else {
        primitives_from(s, i + 1)
    }
}

/// The registry of primitive type names and their JSON mappings.
pub struct PrimitiveTypes {
    types: Vec<String>,
    json_mappings: Vec<(String, String)>,
}

impl PrimitiveTypes {
    /// The registry holds exactly the recognized names and their mappings.
    pub closed spec fn wf(&self) -> bool {
        &&& self.types.deep_view() == seq![
            "string"@,
            "float"@,
            "integer"@,
            "boolean"@,
            "bool"@,
            "null"@,
        ]
        &&& self.json_mappings.deep_view() == seq![
            ("string"@, "string"@),
            ("float"@, "number"@),
            ("integer"@, "integer"@),
            ("boolean"@, "boolean"@),
            ("bool"@, "boolean"@),
            ("null"@, "null"@),
        ]
    }

    /// Builds the registry of the six recognized scalar type names.
    pub fn new() -> (r: PrimitiveTypes)
        ensures
            r.wf(),
    {
        let mut types: Vec<String> = Vec::new();
        types.push(String::from_str("string"));
        types.push(String::from_str("float"));
        types.push(String::from_str("integer"));
        types.push(String::from_str("boolean"));
        types.push(String::from_str("bool"));
        types.push(String::from_str("null"));
        let mut json_mappings: Vec<(String, String)> = Vec::new();
        json_mappings.push((String::from_str("string"), String::from_str("string")));
        json_mappings.push((String::from_str("float"), String::from_str("number")));
        json_mappings.push((String::from_str("integer"), String::from_str("integer")));
        json_mappings.push((String::from_str("boolean"), String::from_str("boolean")));
        json_mappings.push((String::from_str("bool"), String::from_str("boolean")));
        json_mappings.push((String::from_str("null"), String::from_str("null")));
        let r = PrimitiveTypes { types, json_mappings };
        proof {
            assert(r.types.deep_view() =~= seq![
                "string"@,
                "float"@,
                "integer"@,
                "boolean"@,
                "bool"@,
                "null"@,
            ]);
            assert(r.json_mappings.deep_view() =~= seq![
                ("string"@, "string"@),
                ("float"@, "number"@),
                ("integer"@, "integer"@),
                ("boolean"@, "boolean"@),
                ("bool"@, "boolean"@),
                ("null"@, "null"@),
            ]);
        }
        r
    }

    /// Whether the name is one of the registry's primitive type names.
    pub fn is_primitive(&self, dtype: &str) -> (r: bool)
        requires
            self.wf(),
        ensures
            r == is_primitive_name(dtype@),
    {
        proof {
            let tv = self.types.deep_view();
            assert(tv[0] == "string"@ && tv[1] == "float"@ && tv[2] == "integer"@ && tv[3]
                == "boolean"@ && tv[4] == "bool"@ && tv[5] == "null"@);
        }
        let n: usize = self.types.len();
        let mut i: usize = 0;
        while i < n
            invariant
                0 <= i <= n,
                n == self.types@.len(),
                self.wf(),
                forall|j: int| 0 <= j < i ==> self.types.deep_view()[j] != dtype@,
            decreases n - i,
        {
            if str_eq_str(self.types[i].as_str(), dtype) {
                proof {
                    let tv = self.types.deep_view();
                    assert(tv.len() == 6);
                    assert(dtype@ == tv[i as int]);
                    assert(tv[0] == "string"@ && tv[1] == "float"@ && tv[2] == "integer"@ && tv[3]
                        == "boolean"@ && tv[4] == "bool"@ && tv[5] == "null"@);
                    if i == 0 {
                        assert(is_primitive_name(dtype@));
                    } else if i == 1 {
                        assert(is_primitive_name(dtype@));
                    } else if i == 2 {
                        assert(is_primitive_name(dtype@));
                    } else if i == 3 {
                        assert(is_primitive_name(dtype@));
                    } else if i == 4 {
                        assert(is_primitive_name(dtype@));
                    } else {
                        assert(is_primitive_name(dtype@));
                    }
                }
                return true;
            }
            proof {
                assert(self.types.deep_view()[i as int] == self.types@[i as int]@);
            }
            i = i + 1;
        }
        proof {
            let tv = self.types.deep_view();
            assert(tv.len() == 6);
            assert(tv[0] == "string"@ && tv[1] == "float"@ && tv[2] == "integer"@ && tv[3]
                == "boolean"@ && tv[4] == "bool"@ && tv[5] == "null"@);
            assert(tv[0] != dtype@ && tv[1] != dtype@ && tv[2] != dtype@ && tv[3] != dtype@ && tv[4]
                != dtype@ && tv[5] != dtype@);
            assert(!is_primitive_name(dtype@));
        }
        false
    }

    /// Keeps only the names that are not primitive.
    pub fn filter_non_primitives(&self, dtypes: &Vec<String>) -> (r: Vec<String>)
        requires
            self.wf(),
        ensures
            r.deep_view() == non_primitives_from(dtypes.deep_view(), 0),
    {
        let n: usize = dtypes.len();
        let mut out: Vec<String> = Vec::new();
        let mut i: usize = 0;
        proof {
            assert(out.deep_view() =~= Seq::<Seq<char>>::empty());
        }
        while i < n
            invariant
                0 <= i <= n,
                n == dtypes.len(),
                self.wf(),
                out.deep_view() + non_primitives_from(dtypes.deep_view(), i as int)
                    == non_primitives_from(dtypes.deep_view(), 0),
            decreases n - i,
        {
            let ghost pre = out.deep_view();
            let ghost dv = dtypes.deep_view();
            if !self.is_primitive(dtypes[i].as_str()) {
                out.push(dtypes[i].clone());
                proof {
                    assert(out.deep_view() =~= pre.push(dv[i as int]));
                    assert(pre.push(dv[i as int]) + non_primitives_from(dv, i + 1) =~= pre + (
                    seq![dv[i as int]] + non_primitives_from(dv, i + 1)));
                }
            }
            i = i + 1;
        }
        proof {
            assert(out.deep_view() + non_primitives_from(dtypes.deep_view(), n as int)
                =~= out.deep_view());
        }
        out
    }

    /// Keeps only the names that are primitive.
    pub fn filter_primitive(&self, dtypes: &Vec<String>) -> (r: Vec<String>)
        requires
            self.wf(),
        ensures
            r.deep_view() == primitives_from(dtypes.deep_view(), 0),
    {
        let n: usize = dtypes.len();
        let mut out: Vec<String> = Vec::new();
        let mut i: usize = 0;
        proof {
            assert(out.deep_view() =~= Seq::<Seq<char>>::empty());
        }
        while i < n
            invariant
                0 <= i <= n,
                n == dtypes.len(),
                self.wf(),
                out.deep_view() + primitives_from(dtypes.deep_view(), i as int)
                    == primitives_from(dtypes.deep_view(), 0),
            decreases n - i,
        {
            let ghost pre = out.deep_view();
            let ghost dv = dtypes.deep_view();
            if self.is_primitive(dtypes[i].as_str()) {
                out.push(dtypes[i].clone());
                proof {
                    assert(out.deep_view() =~= pre.push(dv[i as int]));
                    assert(pre.push(dv[i as int]) + primitives_from(dv, i + 1) =~= pre + (
                    seq![dv[i as int]] + primitives_from(dv, i + 1)));
                }
            }
            i = i + 1;
        }
        proof {
            assert(out.deep_view() + primitives_from(dtypes.deep_view(), n as int)
                =~= out.deep_view());
        }
        out
    }

    /// The JSON-schema type name of a primitive type name, looked up in the
    /// registry's mappings. A name the registry does not recognize has no
    /// JSON equivalent, so callers filter first.
    pub fn dtype_to_json(&self, dtype: &String) -> (r: String)
        requires
            self.wf(),
            is_primitive_name(dtype@),
        ensures
            r@ == json_of_primitive(dtype@),
    {
        let n: usize = self.json_mappings.len();
        let mut i: usize = 0;
        while i < n
            invariant
                0 <= i <= n,
                n == self.json_mappings@.len(),
                self.wf(),
                is_primitive_name(dtype@),
                forall|j: int| 0 <= j < i ==> self.json_mappings.deep_view()[j].0 != dtype@,
            decreases n - i,
        {
            if str_eq_str(self.json_mappings[i].0.as_str(), dtype.as_str()) {
                let r = self.json_mappings[i].1.clone();
                proof {
                    reveal_strlit("string");
                    reveal_strlit("float");
                    reveal_strlit("integer");
                    reveal_strlit("boolean");
                    reveal_strlit("bool");
                    reveal_strlit("null");
                    let mv = self.json_mappings.deep_view();
                    assert(mv.len() == 6);
                    assert(dtype@ == mv[i as int].0 && r@ == mv[i as int].1);
                    assert(mv[0] == ("string"@, "string"@) && mv[1] == ("float"@, "number"@)
                        && mv[2] == ("integer"@, "integer"@) && mv[3] == ("boolean"@, "boolean"@)
                        && mv[4] == ("bool"@, "boolean"@) && mv[5] == ("null"@, "null"@));
                    if i == 0 {
                        assert(dtype@ == "string"@ && r@ == "string"@);
                        assert(r@ == json_of_primitive(dtype@));
                    } else if i == 1 {
                        assert(dtype@ == "float"@ && r@ == "number"@);
                        assert(r@ == json_of_primitive(dtype@));
                    } else if i == 2 {
                        assert(dtype@ == "integer"@ && r@ == "integer"@);
                        assert(r@ == json_of_primitive(dtype@));
                    } else if i == 3 {
                        assert(dtype@ == "boolean"@ && r@ == "boolean"@);
                        assert(r@ == json_of_primitive(dtype@));
                    } else if i == 4 {
                        assert(dtype@ == "bool"@ && r@ == "boolean"@);
                        assert(r@ == json_of_primitive(dtype@));
                    } else {
                        assert(dtype@ == "null"@ && r@ == "null"@);
                        assert(r@ == json_of_primitive(dtype@));
                    }
                }
                return r;
            }
            proof {
                assert(self.json_mappings.deep_view()[i as int].0 == self.json_mappings@[
                    i as int].0@);
            }
            i = i + 1;
        }
        proof {
            let mv = self.json_mappings.deep_view();
            assert(mv.len() == 6);
            assert(mv[0] == ("string"@, "string"@) && mv[1] == ("float"@, "number"@) && mv[2] == (
            "integer"@, "integer"@) && mv[3] == ("boolean"@, "boolean"@) && mv[4] == ("bool"@,
            "boolean"@) && mv[5] == ("null"@, "null"@));
            assert(mv[0].0 != dtype@ && mv[1].0 != dtype@ && mv[2].0 != dtype@ && mv[3].0 != dtype@
                && mv[4].0 != dtype@ && mv[5].0 != dtype@);
            assert(false);
        }
        String::new()
    }
}

impl Default for PrimitiveTypes {
    fn default() -> (r: Self)
        ensures
            r.wf(),
    {
        PrimitiveTypes::new()
    }
}

} // verus!
