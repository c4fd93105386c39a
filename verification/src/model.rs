//! The extracted schema: objects with attributes and options, enumerations
//! with key/value mappings, and the aggregate data model.

use vstd::prelude::*;
use crate::frontmatter::{FrontMatter, FrontMatterV};
use crate::strutil::{str_eq_str, str_lt, str_lt_str};

verus! {

/// A key/value option attached to an attribute.
#[derive(Debug, PartialEq)]
pub struct AttrOption {
    pub key: String,
    pub value: String,
}

pub ghost struct AttrOptionV {
    pub key: Seq<char>,
    pub value: Seq<char>,
}

impl DeepView for AttrOption {
    type V = AttrOptionV;

    open spec fn deep_view(&self) -> AttrOptionV {
        AttrOptionV { key: self.key@, value: self.value@ }
    }
}

impl AttrOption {
    pub fn new(key: String, value: String) -> (o: AttrOption)
        ensures
            o.key == key,
            o.value == value,
    {
        AttrOption { key, value }
    }
}

/// A named, required-or-optional member of an object.
#[derive(Debug, PartialEq)]
pub struct Attribute {
    pub name: String,
    pub required: bool,
    pub options: Vec<AttrOption>,
}

pub ghost struct AttributeV {
    pub name: Seq<char>,
    pub required: bool,
    pub options: Seq<AttrOptionV>,
}

impl DeepView for Attribute {
    type V = AttributeV;

    open spec fn deep_view(&self) -> AttributeV {
        AttributeV {
            name: self.name@,
            required: self.required,
            options: self.options.deep_view(),
        }
    }
}

impl Attribute {
    pub fn new(name: String, required: bool) -> (a: Attribute)
        ensures
            a.deep_view() == (AttributeV { name: name@, required, options: Seq::empty() }),
    {
        let a = Attribute { name, required, options: Vec::new() };
        proof {
            assert(a.options.deep_view() =~= Seq::<AttrOptionV>::empty());
        }
        a
    }

    pub fn add_option(&mut self, option: AttrOption)
        ensures
            final(self).deep_view() == (AttributeV {
                name: old(self).deep_view().name,
                required: old(self).deep_view().required,
                options: old(self).deep_view().options.push(option.deep_view()),
            }),
    {
        self.options.push(option);
        proof {
            assert(self.options.deep_view() =~= old(self).options.deep_view().push(
                option.deep_view(),
            ));
        }
    }
}

/// A schema entity extracted from a level-3 heading and its following list.
#[derive(Debug, PartialEq)]
pub struct Object {
    pub name: String,
    pub term: Option<String>,
    pub attributes: Vec<Attribute>,
}

pub ghost struct ObjectV {
    pub name: Seq<char>,
    pub term: Option<Seq<char>>,
    pub attributes: Seq<AttributeV>,
}

impl DeepView for Object {
    type V = ObjectV;

    open spec fn deep_view(&self) -> ObjectV {
        ObjectV {
            name: self.name@,
            term: self.term.deep_view(),
            attributes: self.attributes.deep_view(),
        }
    }
}

impl Object {
    pub fn new(name: String, term: Option<String>) -> (o: Object)
        ensures
            o.deep_view() == (ObjectV {
                name: name@,
                term: term.deep_view(),
                attributes: Seq::empty(),
            }),
    {
        let o = Object { name, term, attributes: Vec::new() };
        proof {
            assert(o.attributes.deep_view() =~= Seq::<AttributeV>::empty());
        }
        o
    }

    /// Whether the object has at least one attribute.
    pub fn has_attributes(&self) -> (b: bool)
        ensures
            b == (self.deep_view().attributes.len() > 0),
    {
        self.attributes.len() > 0
    }

    pub fn add_attribute(&mut self, attribute: Attribute)
        ensures
            final(self).deep_view() == (ObjectV {
                name: old(self).deep_view().name,
                term: old(self).deep_view().term,
                attributes: old(self).deep_view().attributes.push(attribute.deep_view()),
            }),
    {
        self.attributes.push(attribute);
        proof {
            assert(self.attributes.deep_view() =~= old(self).attributes.deep_view().push(
                attribute.deep_view(),
            ));
        }
    }

    /// Appends a fresh attribute with no options.
    pub fn create_new_attribute(&mut self, name: String, required: bool)
        ensures
            final(self).deep_view() == (ObjectV {
                name: old(self).deep_view().name,
                term: old(self).deep_view().term,
                attributes: old(self).deep_view().attributes.push(
                    AttributeV { name: name@, required, options: Seq::empty() },
                ),
            }),
    {
        let attribute = Attribute::new(name, required);
        self.add_attribute(attribute);
    }

    /// Appends an option to the most recently added attribute.
    pub fn add_option_to_last(&mut self, option: AttrOption)
        requires
            old(self).deep_view().attributes.len() > 0,
        ensures
            final(self).deep_view() == (ObjectV {
                name: old(self).deep_view().name,
                term: old(self).deep_view().term,
                attributes: old(self).deep_view().attributes.update(
                    old(self).deep_view().attributes.len() - 1,
                    AttributeV {
                        name: old(self).deep_view().attributes.last().name,
                        required: old(self).deep_view().attributes.last().required,
                        options: old(self).deep_view().attributes.last().options.push(
                            option.deep_view(),
                        ),
                    },
                ),
            }),
    {
        let ghost ov = option.deep_view();
        let i: usize = self.attributes.len() - 1;
        let mut last = self.attributes.remove(i);
        last.add_option(option);
        self.attributes.push(last);
        proof {
            assert(self.attributes.deep_view() =~= old(self).attributes.deep_view().update(
                i as int,
                AttributeV {
                    name: old(self).attributes.deep_view().last().name,
                    required: old(self).attributes.deep_view().last().required,
                    options: old(self).attributes.deep_view().last().options.push(ov),
                },
            ));
        }
    }
}

/// Replaces the value of `k` where `ps` already holds it, else inserts the
/// pair at its sorted position: on a key-sorted sequence the result is again
/// key-sorted.
pub open spec fn upsert(
    ps: Seq<(Seq<char>, Seq<char>)>,
    k: Seq<char>,
    v: Seq<char>,
) -> Seq<(Seq<char>, Seq<char>)>
    decreases ps.len(),
{
    if ps.len() == 0 {
        seq![(k, v)]
    } else if ps[0].0 == k {
        seq![(k, v)] + ps.drop_first()
    } else if str_lt(k, ps[0].0) {
        seq![(k, v)] + ps
    } else {
        seq![ps[0]] + upsert(ps.drop_first(), k, v)
    }
}

/// The keys are strictly increasing in the lexicographic order; strictness
/// makes them unique as well.
pub open spec fn sorted_keys(ps: Seq<(Seq<char>, Seq<char>)>) -> bool {
    forall|i: int, j: int| 0 <= i < j < ps.len() ==> str_lt(#[trigger] ps[i].0, #[trigger] ps[j].0)
}

/// Where the first `i` pairs hold neither `k` nor a key above it, the upsert
/// leaves them in place and works on the rest.
proof fn lemma_upsert_skip(
    ps: Seq<(Seq<char>, Seq<char>)>,
    k: Seq<char>,
    v: Seq<char>,
    i: int,
)
    requires
        0 <= i <= ps.len(),
        forall|j: int| 0 <= j < i ==> (#[trigger] ps[j].0) != k && !str_lt(k, ps[j].0),
    ensures
        upsert(ps, k, v) =~= ps.subrange(0, i) + upsert(ps.subrange(i, ps.len() as int), k, v),
    decreases i,
{
    if i == 0 {
        assert(ps.subrange(0, ps.len() as int) =~= ps);
        assert(upsert(ps, k, v) =~= ps.subrange(0, 0) + upsert(ps.subrange(0, ps.len() as int), k, v));
    } else {
        let d = ps.drop_first();
        assert forall|j: int| 0 <= j < i - 1 implies (#[trigger] d[j].0) != k && !str_lt(
            k,
            d[j].0,
        ) by {
            assert(d[j] == ps[j + 1]);
        }
        lemma_upsert_skip(d, k, v, i - 1);
        assert(d.subrange(i - 1, d.len() as int) =~= ps.subrange(i, ps.len() as int));
        assert(upsert(ps, k, v) =~= ps.subrange(0, i) + upsert(
            ps.subrange(i, ps.len() as int),
            k,
            v,
        ));
    }
}

proof fn lemma_upsert_lower_bound(
    ps: Seq<(Seq<char>, Seq<char>)>,
    k: Seq<char>,
    v: Seq<char>,
    x: Seq<char>,
)
    requires
        str_lt(x, k),
        forall|j: int| 0 <= j < ps.len() ==> str_lt(x, (#[trigger] ps[j].0)),
    ensures
        forall|m: int|
            0 <= m < upsert(ps, k, v).len() ==> str_lt(x, (#[trigger] upsert(ps, k, v)[m].0)),
    decreases ps.len(),
{
    let r = upsert(ps, k, v);
    if ps.len() == 0 {
        assert(r[0].0 == k);
    } else if ps[0].0 == k {
        assert forall|m: int| 0 <= m < r.len() implies str_lt(x, (#[trigger] r[m].0)) by {
            if m == 0 {
                assert(r[0].0 == k);
            } else {
                assert(r[m] == ps[m]);
            }
        }
    } else if str_lt(k, ps[0].0) {
        assert forall|m: int| 0 <= m < r.len() implies str_lt(x, (#[trigger] r[m].0)) by {
            if m == 0 {
                assert(r[0].0 == k);
            } else {
                assert(r[m] == ps[m - 1]);
            }
        }
    } else {
        let d = ps.drop_first();
        assert forall|j: int| 0 <= j < d.len() implies str_lt(x, (#[trigger] d[j].0)) by {
            assert(d[j] == ps[j + 1]);
        }
        lemma_upsert_lower_bound(d, k, v, x);
        assert forall|m: int| 0 <= m < r.len() implies str_lt(x, (#[trigger] r[m].0)) by {
            if m == 0 {
                assert(r[0] == ps[0]);
            } else {
                assert(r[m] == upsert(d, k, v)[m - 1]);
            }
        }
    }
}

/// Inserting into a key-sorted mapping keeps it key-sorted (and so keeps the
/// keys unique).
pub proof fn lemma_upsert_keeps_sorted(
    ps: Seq<(Seq<char>, Seq<char>)>,
    k: Seq<char>,
    v: Seq<char>,
)
    requires
        sorted_keys(ps),
    ensures
        sorted_keys(upsert(ps, k, v)),
    decreases ps.len(),
{
    if ps.len() == 0 {
    } else if ps[0].0 == k {
        let r = seq![(k, v)] + ps.drop_first();
        assert forall|i: int, j: int| 0 <= i < j < r.len() implies str_lt(
            #[trigger] r[i].0,
            #[trigger] r[j].0,
        ) by {
            if i == 0 {
                assert(r[j] == ps[j]);
                assert(str_lt(ps[0].0, ps[j].0));
            } else {
                assert(r[i] == ps[i] && r[j] == ps[j]);
            }
        }
    } else if str_lt(k, ps[0].0) {
        let r = seq![(k, v)] + ps;
        assert forall|i: int, j: int| 0 <= i < j < r.len() implies str_lt(
            #[trigger] r[i].0,
            #[trigger] r[j].0,
        ) by {
            if i == 0 {
                assert(r[j] == ps[j - 1]);
                if j > 1 {
                    assert(str_lt(ps[0].0, ps[j - 1].0));
                    crate::strutil::lemma_str_lt_trans(k, ps[0].0, ps[j - 1].0);
                }
            } else {
                assert(r[i] == ps[i - 1] && r[j] == ps[j - 1]);
            }
        }
    } else {
        crate::strutil::lemma_str_lt_connex(ps[0].0, k);
        assert(str_lt(ps[0].0, k));
        let d = ps.drop_first();
        assert forall|i: int, j: int| 0 <= i < j < d.len() implies str_lt(
            #[trigger] d[i].0,
            #[trigger] d[j].0,
        ) by {
            assert(d[i] == ps[i + 1] && d[j] == ps[j + 1]);
        }
        assert forall|j: int| 0 <= j < d.len() implies str_lt(ps[0].0, (#[trigger] d[j].0)) by {
            assert(d[j] == ps[j + 1]);
        }
        lemma_upsert_keeps_sorted(d, k, v);
        lemma_upsert_lower_bound(d, k, v, ps[0].0);
        let r = seq![ps[0]] + upsert(d, k, v);
        assert forall|i: int, j: int| 0 <= i < j < r.len() implies str_lt(
            #[trigger] r[i].0,
            #[trigger] r[j].0,
        ) by {
            if i == 0 {
                assert(r[j] == upsert(d, k, v)[j - 1]);
            } else {
                assert(r[i] == upsert(d, k, v)[i - 1] && r[j] == upsert(d, k, v)[j - 1]);
            }
        }
    }
}

/// A named set of key/value mappings extracted from a heading and a
/// following fenced code block.
#[derive(Debug, PartialEq)]
pub struct Enumeration {
    pub name: String,
    pub mappings: Vec<(String, String)>,
}

pub ghost struct EnumerationV {
    pub name: Seq<char>,
    pub mappings: Seq<(Seq<char>, Seq<char>)>,
}

impl DeepView for Enumeration {
    type V = EnumerationV;

    open spec fn deep_view(&self) -> EnumerationV {
        EnumerationV { name: self.name@, mappings: self.mappings.deep_view() }
    }
}

impl Enumeration {
    pub fn new(name: String) -> (e: Enumeration)
        ensures
            e.deep_view() == (EnumerationV { name: name@, mappings: Seq::empty() }),
    {
        let e = Enumeration { name, mappings: Vec::new() };
        proof {
            assert(e.mappings.deep_view() =~= Seq::<(Seq<char>, Seq<char>)>::empty());
        }
        e
    }

    /// Whether the enumeration holds at least one mapping.
    pub fn has_values(&self) -> (b: bool)
        ensures
            b == (self.deep_view().mappings.len() > 0),
    {
        self.mappings.len() > 0
    }

    /// Inserts a mapping at its key-sorted position, replacing the value
    /// where the key already exists.
    pub fn insert(&mut self, key: String, value: String)
        ensures
            final(self).deep_view() == (EnumerationV {
                name: old(self).deep_view().name,
                mappings: upsert(old(self).deep_view().mappings, key@, value@),
            }),
    {
        let ghost orig = self.mappings.deep_view();
        let n: usize = self.mappings.len();
        let mut i: usize = 0;
        while i < n
            invariant
                0 <= i <= n,
                n == self.mappings.len(),
                self.mappings.deep_view() == orig,
                orig == old(self).deep_view().mappings,
                self.name == old(self).name,
                forall|j: int|
                    0 <= j < i ==> (#[trigger] orig[j].0) != key@ && !str_lt(key@, orig[j].0),
            decreases n - i,
        {
            let ghost rest = orig.subrange(i as int, n as int);
            if str_eq_str(self.mappings[i].0.as_str(), key.as_str()) {
                self.mappings.remove(i);
                self.mappings.insert(i, (key, value));
                proof {
                    assert(rest[0].0 == key@);
                    lemma_upsert_skip(orig, key@, value@, i as int);
                    assert(upsert(rest, key@, value@) =~= seq![(key@, value@)] + orig.subrange(
                        i + 1,
                        n as int,
                    ));
                    assert(upsert(orig, key@, value@) =~= orig.update(i as int, (key@, value@)));
                    assert(self.mappings.deep_view() =~= orig.update(i as int, (key@, value@)));
                }
                return;
            }
            proof {
                assert(orig[i as int].0 != key@);
            }
            if str_lt_str(key.as_str(), self.mappings[i].0.as_str()) {
                self.mappings.insert(i, (key, value));
                proof {
                    assert(rest[0].0 == orig[i as int].0);
                    lemma_upsert_skip(orig, key@, value@, i as int);
                    assert(upsert(rest, key@, value@) =~= seq![(key@, value@)] + rest);
                    assert(upsert(orig, key@, value@) =~= orig.subrange(0, i as int) + (seq![
                        (key@, value@),
                    ] + rest));
                    assert(self.mappings.deep_view() =~= orig.subrange(0, i as int) + (seq![
                        (key@, value@),
                    ] + rest));
                }
                return;
            }
            i = i + 1;
        }
        self.mappings.push((key, value));
        proof {
            lemma_upsert_skip(orig, key@, value@, n as int);
            assert(orig.subrange(0, n as int) =~= orig);
            assert(upsert(orig.subrange(n as int, n as int), key@, value@) =~= seq![
                (key@, value@),
            ]);
            assert(upsert(orig, key@, value@) =~= orig.push((key@, value@)));
            assert(self.mappings.deep_view() =~= orig.push((key@, value@)));
        }
    }
}

/// The aggregate result of extraction.
#[derive(Debug, PartialEq)]
pub struct DataModel {
    pub name: Option<String>,
    pub config: Option<FrontMatter>,
    pub objects: Vec<Object>,
    pub enums: Vec<Enumeration>,
}

pub ghost struct DataModelV {
    pub name: Option<Seq<char>>,
    pub config: Option<FrontMatterV>,
    pub objects: Seq<ObjectV>,
    pub enums: Seq<EnumerationV>,
}

impl DeepView for DataModel {
    type V = DataModelV;

    open spec fn deep_view(&self) -> DataModelV {
        DataModelV {
            name: self.name.deep_view(),
            config: self.config.deep_view(),
            objects: self.objects.deep_view(),
            enums: self.enums.deep_view(),
        }
    }
}

impl DataModel {
    pub fn new(name: Option<String>, config: Option<FrontMatter>) -> (m: DataModel)
        ensures
            m.deep_view() == (DataModelV {
                name: name.deep_view(),
                config: config.deep_view(),
                objects: Seq::empty(),
                enums: Seq::empty(),
            }),
    {
        let m = DataModel { name, config, objects: Vec::new(), enums: Vec::new() };
        proof {
            assert(m.objects.deep_view() =~= Seq::<ObjectV>::empty());
            assert(m.enums.deep_view() =~= Seq::<EnumerationV>::empty());
        }
        m
    }
}

} // verus!
