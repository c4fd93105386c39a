//! The two-pass structural extractor: one scan over the event stream builds
//! objects and their attributes, an independent scan builds enumerations,
//! and the filtered results are assembled into the data model.

use vstd::prelude::*;
use vstd::string::StrSliceExecFns;
use vstd::string::StringExecFns;
use crate::events::MdEvent;
use crate::frontmatter::{FrontMatter, FrontMatterV};
use crate::model::{
    lemma_upsert_keeps_sorted, sorted_keys, upsert, AttrOption, AttrOptionV, Attribute,
    AttributeV, DataModel, DataModelV, Enumeration, EnumerationV, Object, ObjectV,
};
use crate::strutil::{
    find_char, find_from, find_term, first_token, first_token_str, has_char, lemma_find_from,
    sans_quotes, sans_quotes_str, str_eq_str, term_of, trim_spec, trim_str,
};

verus! {

/// A structural or lexical defect of the document, on which extraction stops.
#[derive(Clone, Copy, Debug, PartialEq, Eq, Structural)]
pub enum ExtractError {
    /// A heading, item or code block lacked the text run the dialect requires.
    MissingText,
    /// A list or item appeared before any object heading.
    NoObject,
    /// An object heading held no whitespace-delimited token.
    EmptyHeading,
    /// An array marker appeared before any collected option string.
    NoOption,
    /// A code block appeared before any enumeration heading.
    NoEnum,
}

/// The state the object pass carries: the model name seen so far and the
/// objects in order of appearance.
pub ghost struct ObjState {
    pub name: Option<Seq<char>>,
    pub objects: Seq<ObjectV>,
}

/// One text run read at `i`: its characters and the next position.
pub open spec fn read_text(events: Seq<MdEvent>, i: int) -> Option<(Seq<char>, int)> {
    if 0 <= i < events.len() {
        match events[i] {
            MdEvent::Text(t) => Some((t@, i + 1)),
            _ => None,
        }
    } else {
        None
    }
}

/// The dual-read heuristic for an attribute name: a text run found at once
/// means optional; one recovered on the second or third read (a markup
/// wrapper stood in between) means required.
pub open spec fn read_attr_text(events: Seq<MdEvent>, i: int) -> Option<(bool, Seq<char>, int)> {
    match read_text(events, i) {
        Some((t, j)) => Some((false, t, j)),
        None => match read_text(events, i + 1) {
            Some((t, j)) => Some((true, t, j)),
            None => match read_text(events, i + 2) {
                Some((t, j)) => Some((true, t, j)),
                None => None,
            },
        },
    }
}

/// The object a level-3 heading text declares: named by the first token,
/// with the first parenthesised group as its term. A heading with no token
/// declares nothing.
pub open spec fn object_of_heading(h: Seq<char>) -> Option<ObjectV> {
    match first_token(h) {
        None => None,
        Some(nm) => Some(ObjectV { name: nm, term: term_of(h), attributes: Seq::empty() }),
    }
}

/// The key of a `:`-delimited option string: the trimmed text before the
/// first colon.
pub open spec fn opt_key(s: Seq<char>) -> Seq<char> {
    trim_spec(s.subrange(0, find_from(s, 0, ':')))
}

/// The value of a `:`-delimited option string: the trimmed text after the
/// first colon, later colons kept.
pub open spec fn opt_value(s: Seq<char>) -> Seq<char> {
    trim_spec(s.subrange(find_from(s, 0, ':') + 1, s.len() as int))
}

/// Appends an attribute to the last object.
pub open spec fn push_attrv(objects: Seq<ObjectV>, a: AttributeV) -> Seq<ObjectV>
    recommends
        objects.len() > 0,
{
    let obj = objects.last();
    objects.update(
        objects.len() - 1,
        ObjectV { name: obj.name, term: obj.term, attributes: obj.attributes.push(a) },
    )
}

/// Appends a fresh attribute with no options to the last object.
pub open spec fn push_attr(objects: Seq<ObjectV>, nm: Seq<char>, req: bool) -> Seq<ObjectV>
    recommends
        objects.len() > 0,
{
    push_attrv(objects, AttributeV { name: nm, required: req, options: Seq::empty() })
}

/// Appends an option to the last attribute of the last object.
pub open spec fn push_option(objects: Seq<ObjectV>, k: Seq<char>, v: Seq<char>) -> Seq<ObjectV>
    recommends
        objects.len() > 0,
        objects.last().attributes.len() > 0,
{
    let obj = objects.last();
    let attr = obj.attributes.last();
    objects.update(
        objects.len() - 1,
        ObjectV {
            name: obj.name,
            term: obj.term,
            attributes: obj.attributes.update(
                obj.attributes.len() - 1,
                AttributeV {
                    name: attr.name,
                    required: attr.required,
                    options: attr.options.push(AttrOptionV { key: k, value: v }),
                },
            ),
        },
    )
}

/// Classifies one collected option string: with a colon it becomes an option
/// of the nearest preceding attribute; without one it declares a fresh,
/// optional attribute on the last object.
pub open spec fn distribute_one(objects: Seq<ObjectV>, s: Seq<char>) -> Seq<ObjectV> {
    if objects.len() == 0 {
        objects
    } else if has_char(s, ':') {
        if objects.last().attributes.len() == 0 {
            objects
        } else {
            push_option(objects, opt_key(s), opt_value(s))
        }
    } else {
        push_attr(objects, s, false)
    }
}

/// Folds `distribute_one` over the collected strings, from `k` on.
pub open spec fn distribute_from(objects: Seq<ObjectV>, strs: Seq<Seq<char>>, k: int) -> Seq<
    ObjectV,
>
    decreases strs.len() - k when 0 <= k <= strs.len()
{
    if k >= strs.len() {
        objects
    } else {
        distribute_from(distribute_one(objects, strs[k]), strs, k + 1)
    }
}

/// The nested walk of an options list: each item contributes its text run,
/// a text run `[` appends the array marker to the previous string, and the
/// walk stops at the first list end (or the stream's end).
pub open spec fn options_walk(events: Seq<MdEvent>, i: int, acc: Seq<Seq<char>>) -> Result<
    (Seq<Seq<char>>, int),
    ExtractError,
>
    decreases events.len() - i when 0 <= i <= events.len()
{
    if i >= events.len() {
        Ok((acc, i))
    } else {
        match events[i] {
            MdEvent::ItemStart => match read_text(events, i + 1) {
                Some((t, j)) => options_walk(events, j, acc.push(t)),
                None => Err(ExtractError::MissingText),
            },
            MdEvent::ListEnd => Ok((acc, i + 1)),
            MdEvent::Text(t) => if t@ == "["@ {
                if acc.len() == 0 {
                    Err(ExtractError::NoOption)
                } else {
                    options_walk(events, i + 1, acc.update(acc.len() - 1, acc.last() + "[]"@))
                }
            } else {
                options_walk(events, i + 1, acc)
            },
            _ => options_walk(events, i + 1, acc),
        }
    }
}

pub proof fn lemma_options_walk_advance(events: Seq<MdEvent>, i: int, acc: Seq<Seq<char>>)
    requires
        0 <= i <= events.len(),
    ensures
        match options_walk(events, i, acc) {
            Ok(r) => i <= r.1 <= events.len(),
            Err(_) => true,
        },
    decreases events.len() - i,
{
    if i < events.len() {
        match events[i] {
            MdEvent::ItemStart => {
                if read_text(events, i + 1) is Some {
                    lemma_options_walk_advance(events, i + 2, acc.push(read_text(events, i + 1)->Some_0.0));
                }
            },
            MdEvent::ListEnd => {},
            MdEvent::Text(t) => {
                if t@ == "["@ {
                    if acc.len() > 0 {
                        lemma_options_walk_advance(
                            events,
                            i + 1,
                            acc.update(acc.len() - 1, acc.last() + "[]"@),
                        );
                    }
                } else {
                    lemma_options_walk_advance(events, i + 1, acc);
                }
            },
            _ => {
                lemma_options_walk_advance(events, i + 1, acc);
            },
        }
    }
}

/// One transition of the object pass at event `i`.
pub open spec fn obj_handle(events: Seq<MdEvent>, i: int, st: ObjState) -> Result<
    (ObjState, int),
    ExtractError,
>
    recommends
        0 <= i < events.len(),
{
    match events[i] {
        MdEvent::HeadingStart(level) => if level == 1 {
            match read_text(events, i + 1) {
                None => Err(ExtractError::MissingText),
                Some((t, j)) => Ok(
                    (
                        ObjState {
                            name: if st.name is None {
                                Some(t)
                            } else {
                                st.name
                            },
                            objects: st.objects,
                        },
                        j,
                    ),
                ),
            }
        } else if level == 3 {
            match read_text(events, i + 1) {
                None => Err(ExtractError::MissingText),
                Some((h, j)) => match object_of_heading(h) {
                    None => Err(ExtractError::EmptyHeading),
                    Some(o) => Ok((ObjState { name: st.name, objects: st.objects.push(o) }, j)),
                },
            }
        } else {
            Ok((st, i + 1))
        },
        MdEvent::ListStart => if st.objects.len() == 0 {
            Err(ExtractError::NoObject)
        } else if st.objects.last().attributes.len() == 0 {
            match read_attr_text(events, i + 2) {
                None => Err(ExtractError::MissingText),
                Some((req, nm, j)) => Ok(
                    (ObjState { name: st.name, objects: push_attr(st.objects, nm, req) }, j),
                ),
            }
        } else {
            match options_walk(events, i + 1, Seq::empty()) {
                Err(e) => Err(e),
                Ok((strs, j)) => Ok(
                    (
                        ObjState { name: st.name, objects: distribute_from(st.objects, strs, 0) },
                        j,
                    ),
                ),
            }
        },
        MdEvent::ItemStart => match read_attr_text(events, i + 1) {
            None => Err(ExtractError::MissingText),
            Some((req, nm, j)) => if st.objects.len() == 0 {
                Err(ExtractError::NoObject)
            } else {
                Ok((ObjState { name: st.name, objects: push_attr(st.objects, nm, req) }, j))
            },
        },
        _ => Ok((st, i + 1)),
    }
}

pub proof fn lemma_obj_handle_advance(events: Seq<MdEvent>, i: int, st: ObjState)
    requires
        0 <= i < events.len(),
    ensures
        match obj_handle(events, i, st) {
            Ok(r) => i < r.1 <= events.len(),
            Err(_) => true,
        },
{
    match events[i] {
        MdEvent::ListStart => {
            if st.objects.len() > 0 && st.objects.last().attributes.len() > 0 {
                lemma_options_walk_advance(events, i + 1, Seq::empty());
            }
        },
        _ => {},
    }
}

/// The whole object pass from `i` in state `st`.
pub open spec fn obj_scan(events: Seq<MdEvent>, i: int, st: ObjState) -> Result<
    ObjState,
    ExtractError,
>
    decreases events.len() - i when 0 <= i <= events.len()
        via obj_scan_decreases
{
    if i >= events.len() {
        Ok(st)
    } else {
        match obj_handle(events, i, st) {
            Err(e) => Err(e),
            Ok((st2, j)) => obj_scan(events, j, st2),
        }
    }
}

#[via_fn]
proof fn obj_scan_decreases(events: Seq<MdEvent>, i: int, st: ObjState) {
    if 0 <= i < events.len() {
        lemma_obj_handle_advance(events, i, st);
    }
}

/// Reads the single text run a heading or item must carry.
pub fn extract_name(events: &Vec<MdEvent>, i: usize) -> (r: Result<(String, usize), ExtractError>)
    ensures
        match r {
            Ok(p) => read_text(events@, i as int) == Some((p.0@, p.1 as int)),
            Err(e) => read_text(events@, i as int) is None && e == ExtractError::MissingText,
        },
{
    if i < events.len() {
        match &events[i] {
            MdEvent::Text(t) => Ok((t.clone(), i + 1)),
            _ => Err(ExtractError::MissingText),
        }
    } else {
        Err(ExtractError::MissingText)
    }
}

/// Reads an attribute name by the dual-read heuristic: an immediate text run
/// is optional; one recovered behind one or two extra events is required.
pub fn extract_attr_name_required(events: &Vec<MdEvent>, i: usize) -> (r: Result<
    (bool, String, usize),
    ExtractError,
>)
    requires
        i as int <= events@.len(),
    ensures
        match r {
            Ok(t) => read_attr_text(events@, i as int) == Some((t.0, t.1@, t.2 as int)),
            Err(e) => read_attr_text(events@, i as int) is None && e == ExtractError::MissingText,
        },
{
    let n: usize = events.len();
    if i < n {
        match &events[i] {
            MdEvent::Text(t) => {
                return Ok((false, t.clone(), i + 1));
            },
            _ => {},
        }
    }
    if n - i > 1 {
        match &events[i + 1] {
            MdEvent::Text(t) => {
                return Ok((true, t.clone(), i + 2));
            },
            _ => {},
        }
    }
    if n - i > 2 {
        match &events[i + 2] {
            MdEvent::Text(t) => {
                return Ok((true, t.clone(), i + 3));
            },
            _ => {},
        }
    }
    Err(ExtractError::MissingText)
}

/// The first non-empty parenthesised group of a heading, as its term.
pub fn extract_object_term(heading: &str) -> (r: Option<String>)
    ensures
        match r {
            Some(t) => term_of(heading@) == Some(t@),
            None => term_of(heading@) is None,
        },
{
    find_term(heading)
}

/// Builds the object a level-3 heading declares: reads the heading text,
/// names the object after its first token and captures the parenthesised
/// term.
pub fn process_object_heading(events: &Vec<MdEvent>, i: usize) -> (r: Result<
    (Object, usize),
    ExtractError,
>)
    ensures
        match r {
            Ok(p) => match read_text(events@, i as int) {
                Some((h, j)) => p.1 as int == j && object_of_heading(h) == Some(p.0.deep_view()),
                None => false,
            },
            Err(e) => match read_text(events@, i as int) {
                None => e == ExtractError::MissingText,
                Some((h, _)) => object_of_heading(h) is None && e == ExtractError::EmptyHeading,
            },
        },
{
    let (heading, j) = match extract_name(events, i) {
        Ok(p) => p,
        Err(e) => {
            return Err(e);
        },
    };
    let name = match first_token_str(heading.as_str()) {
        Some(nm) => nm,
        None => {
            return Err(ExtractError::EmptyHeading);
        },
    };
    let term = extract_object_term(heading.as_str());
    Ok((Object::new(name, term), j))
}

/// Splits a `:`-delimited option string into its trimmed key and value; the
/// value keeps any later colons. A string without a colon is no option, so
/// callers test first.
pub fn process_option(option: &String) -> (r: (String, String))
    requires
        has_char(option@, ':'),
    ensures
        r.0@ == opt_key(option@),
        r.1@ == opt_value(option@),
{
    proof {
        lemma_find_from(option@, 0, ':');
    }
    let s = option.as_str();
    let n: usize = s.unicode_len();
    let p: usize = find_char(s, 0, ':');
    let key = trim_str(s.substring_char(0, p));
    let value = trim_str(s.substring_char(p + 1, n));
    (key, value)
}

/// Attaches a key/value option to the last attribute of the last object.
pub fn add_option_to_last_attribute(objects: &mut Vec<Object>, key: String, value: String)
    requires
        old(objects)@.len() > 0,
        old(objects).deep_view().last().attributes.len() > 0,
    ensures
        final(objects).deep_view() == push_option(old(objects).deep_view(), key@, value@),
{
    let ghost orig = objects.deep_view();
    let mut obj = match objects.pop() {
        Some(o) => o,
        None => {
            proof {
                assert(false);
            }
            return;
        },
    };
    let option = AttrOption::new(key, value);
    obj.add_option_to_last(option);
    objects.push(obj);
    proof {
        assert(objects.deep_view() =~= push_option(orig, key@, value@));
    }
}

/// Classifies one collected option string and applies it: a `:`-string
/// becomes an option of the nearest preceding attribute; any other string
/// declares a fresh optional attribute on the last object.
pub fn distribute_attribute_options(objects: &mut Vec<Object>, attr_string: String) -> (r: Option<
    (),
>)
    requires
        old(objects)@.len() > 0,
        has_char(attr_string@, ':') ==> old(objects).deep_view().last().attributes.len() > 0,
    ensures
        r is None,
        final(objects).deep_view() == distribute_one(old(objects).deep_view(), attr_string@),
{
    let ghost orig = objects.deep_view();
    let n: usize = attr_string.as_str().unicode_len();
    if find_char(attr_string.as_str(), 0, ':') < n {
        let (key, value) = process_option(&attr_string);
        add_option_to_last_attribute(objects, key, value);
        return None;
    }
    let mut obj = match objects.pop() {
        Some(o) => o,
        None => {
            proof {
                assert(false);
            }
            return None;
        },
    };
    obj.create_new_attribute(attr_string, false);
    objects.push(obj);
    proof {
        assert(objects.deep_view() =~= push_attr(orig, attr_string@, false));
    }
    None
}

/// Walks a nested options list, collecting one string per item; a `[` text
/// run marks the previous string with the array suffix; the walk stops at
/// the first list end.
pub fn extract_attribute_options(events: &Vec<MdEvent>, i: usize) -> (r: Result<
    (Vec<String>, usize),
    ExtractError,
>)
    requires
        i as int <= events@.len(),
    ensures
        match r {
            Ok(p) => options_walk(events@, i as int, Seq::empty()) == Ok::<_, ExtractError>(
                (p.0.deep_view(), p.1 as int),
            ),
            Err(e) => options_walk(events@, i as int, Seq::empty()) == Err::<
                (Seq<Seq<char>>, int),
                _,
            >(e),
        },
{
    let n: usize = events.len();
    let mut options: Vec<String> = Vec::new();
    let mut cur: usize = i;
    proof {
        assert(options.deep_view() =~= Seq::<Seq<char>>::empty());
    }
    while cur < n
        invariant
            i <= cur <= n,
            n == events@.len(),
            options_walk(events@, i as int, Seq::empty()) == options_walk(
                events@,
                cur as int,
                options.deep_view(),
            ),
        decreases n - cur,
    {
        let ghost acc = options.deep_view();
        match &events[cur] {
            MdEvent::ItemStart => {
                match extract_name(events, cur + 1) {
                    Ok((t, j)) => {
                        options.push(t);
                        proof {
                            assert(options.deep_view() =~= acc.push(options@[acc.len() as int]@));
                        }
                        cur = j;
                    },
                    Err(e) => {
                        return Err(e);
                    },
                }
            },
            MdEvent::ListEnd => {
                return Ok((options, cur + 1));
            },
            MdEvent::Text(t) => {
                if str_eq_str(t.as_str(), "[") {
                    if options.len() == 0 {
                        return Err(ExtractError::NoOption);
                    }
                    let last = match options.pop() {
                        Some(s) => s,
                        None => {
                            proof {
                                assert(false);
                            }
                            return Err(ExtractError::NoOption);
                        },
                    };
                    options.push(last.concat("[]"));
                    proof {
                        assert(options.deep_view() =~= acc.update(
                            acc.len() - 1,
                            acc.last() + "[]"@,
                        ));
                    }
                }
                cur = cur + 1;
            },
            _ => {
                cur = cur + 1;
            },
        }
    }
    Ok((options, cur))
}

/// Appends an attribute to the last object of the list.
fn push_attribute(objects: &mut Vec<Object>, attribute: Attribute)
    requires
        old(objects)@.len() > 0,
    ensures
        final(objects).deep_view() == push_attrv(old(objects).deep_view(), attribute.deep_view()),
{
    let ghost orig = objects.deep_view();
    let ghost av = attribute.deep_view();
    let mut obj = match objects.pop() {
        Some(o) => o,
        None => {
            proof {
                assert(false);
            }
            return;
        },
    };
    obj.add_attribute(attribute);
    objects.push(obj);
    proof {
        assert(objects.deep_view() =~= push_attrv(orig, av));
    }
}

/// Processes one event of the object pass, mutating the model name and the
/// object list, and returns the position of the next event to process.
pub fn process_object_event(
    events: &Vec<MdEvent>,
    i: usize,
    name: &mut Option<String>,
    objects: &mut Vec<Object>,
) -> (r: Result<usize, ExtractError>)
    requires
        (i as int) < events@.len(),
    ensures
        match r {
            Ok(j) => obj_handle(
                events@,
                i as int,
                (ObjState { name: old(name).deep_view(), objects: old(objects).deep_view() }),
            ) == Ok::<_, ExtractError>(
                (
                    (ObjState {
                        name: final(name).deep_view(),
                        objects: final(objects).deep_view(),
                    }),
                    j as int,
                ),
            ),
            Err(e) => obj_handle(
                events@,
                i as int,
                (ObjState { name: old(name).deep_view(), objects: old(objects).deep_view() }),
            ) == Err::<(ObjState, int), _>(e),
        },
{
    let ghost st0 = ObjState { name: name.deep_view(), objects: objects.deep_view() };
    let n: usize = events.len();
    match &events[i] {
        MdEvent::HeadingStart(level) => {
            if *level == 1 {
                match extract_name(events, i + 1) {
                    Ok((t, j)) => {
                        if name.is_none() {
                            *name = Some(t);
                        }
                        Ok(j)
                    },
                    Err(e) => Err(e),
                }
            } else if *level == 3 {
                match process_object_heading(events, i + 1) {
                    Ok((obj, j)) => {
                        let ghost ov = obj.deep_view();
                        objects.push(obj);
                        proof {
                            assert(objects.deep_view() =~= st0.objects.push(ov));
                        }
                        Ok(j)
                    },
                    Err(e) => Err(e),
                }
            } else {
                Ok(i + 1)
            }
        },
        MdEvent::ListStart => {
            if objects.len() == 0 {
                return Err(ExtractError::NoObject);
            }
            let lastidx: usize = objects.len() - 1;
            if !objects[lastidx].has_attributes() {
                if n - i > 1 {
                    match extract_attr_name_required(events, i + 2) {
                        Ok((required, attr_name, j)) => {
                            let attribute = Attribute::new(attr_name, required);
                            push_attribute(objects, attribute);
                            Ok(j)
                        },
                        Err(e) => Err(e),
                    }
                } else {
                    proof {
                        assert(read_attr_text(events@, i + 2) is None);
                    }
                    Err(ExtractError::MissingText)
                }
            } else {
                match extract_attribute_options(events, i + 1) {
                    Ok((attr_strings, j)) => {
                        let ghost strs = attr_strings.deep_view();
                        let m: usize = attr_strings.len();
                        let mut k: usize = 0;
                        while k < m
                            invariant
                                0 <= k <= m,
                                m == attr_strings@.len(),
                                strs == attr_strings.deep_view(),
                                distribute_from(st0.objects, strs, 0) == distribute_from(
                                    objects.deep_view(),
                                    strs,
                                    k as int,
                                ),
                                objects@.len() > 0,
                                objects.deep_view().last().attributes.len() > 0,
                            decreases m - k,
                        {
                            let ghost pre = objects.deep_view();
                            distribute_attribute_options(objects, attr_strings[k].clone());
                            proof {
                                assert(objects.deep_view() == distribute_one(pre, strs[k as int]));
                                assert(objects.deep_view().last().attributes.len() > 0);
                            }
                            k = k + 1;
                        }
                        Ok(j)
                    },
                    Err(e) => Err(e),
                }
            }
        },
        MdEvent::ItemStart => {
            match extract_attr_name_required(events, i + 1) {
                Ok((required, attr_name, j)) => {
                    if objects.len() == 0 {
                        return Err(ExtractError::NoObject);
                    }
                    let attribute = Attribute::new(attr_name, required);
                    push_attribute(objects, attribute);
                    Ok(j)
                },
                Err(e) => Err(e),
            }
        },
        _ => Ok(i + 1),
    }
}

/// Runs the object pass over the whole event stream, yielding the model name
/// and the objects in order of appearance.
pub fn extract_objects(events: &Vec<MdEvent>) -> (r: Result<
    (Option<String>, Vec<Object>),
    ExtractError,
>)
    ensures
        match r {
            Ok(p) => obj_scan(events@, 0, (ObjState { name: None, objects: Seq::empty() }))
                == Ok::<_, ExtractError>(
                (ObjState { name: p.0.deep_view(), objects: p.1.deep_view() }),
            ),
            Err(e) => obj_scan(events@, 0, (ObjState { name: None, objects: Seq::empty() }))
                == Err::<ObjState, _>(e),
        },
{
    let n: usize = events.len();
    let mut name: Option<String> = None;
    let mut objects: Vec<Object> = Vec::new();
    let mut i: usize = 0;
    proof {
        assert(objects.deep_view() =~= Seq::<ObjectV>::empty());
    }
    while i < n
        invariant
            0 <= i <= n,
            n == events@.len(),
            obj_scan(events@, 0, (ObjState { name: None, objects: Seq::empty() })) == obj_scan(
                events@,
                i as int,
                (ObjState { name: name.deep_view(), objects: objects.deep_view() }),
            ),
        decreases n - i,
    {
        let ghost pre = ObjState { name: name.deep_view(), objects: objects.deep_view() };
        match process_object_event(events, i, &mut name, &mut objects) {
            Ok(j) => {
                proof {
                    lemma_obj_handle_advance(events@, i as int, pre);
                }
                i = j;
            },
            Err(e) => {
                return Err(e);
            },
        }
    }
    Ok((name, objects))
}

/// The mapping a code-block line contributes: a line with exactly one `=`
/// yields its trimmed, quote-stripped sides; any other line is skipped.
pub open spec fn line_entry(line: Seq<char>) -> Option<(Seq<char>, Seq<char>)> {
    let p = find_from(line, 0, '=');
    if p >= line.len() {
        None
    } else if find_from(line, p + 1, '=') < line.len() {
        None
    } else {
        Some(
            (
                sans_quotes(trim_spec(line.subrange(0, p))),
                sans_quotes(trim_spec(line.subrange(p + 1, line.len() as int))),
            ),
        )
    }
}

/// The mappings after processing the newline-separated lines of `s` from
/// position `i`, starting from `acc`.
pub open spec fn enum_entries_from(
    s: Seq<char>,
    i: int,
    acc: Seq<(Seq<char>, Seq<char>)>,
) -> Seq<(Seq<char>, Seq<char>)>
    decreases s.len() - i when 0 <= i <= s.len()
        via enum_entries_decreases
{
    let e = find_from(s, i, '\n');
    let acc2 = match line_entry(s.subrange(i, e)) {
        Some((k, v)) => upsert(acc, k, v),
        None => acc,
    };
    if e >= s.len() {
        acc2
    } else {
        enum_entries_from(s, e + 1, acc2)
    }
}

#[via_fn]
proof fn enum_entries_decreases(s: Seq<char>, i: int, acc: Seq<(Seq<char>, Seq<char>)>) {
    if 0 <= i <= s.len() {
        lemma_find_from(s, i, '\n');
    }
}

/// Processing a code block's lines keeps a key-sorted mapping key-sorted
/// (and so key-unique); an enumeration starts from the empty, trivially
/// sorted mapping.
pub proof fn lemma_enum_entries_sorted(s: Seq<char>, i: int, acc: Seq<(Seq<char>, Seq<char>)>)
    requires
        0 <= i <= s.len(),
        sorted_keys(acc),
    ensures
        sorted_keys(enum_entries_from(s, i, acc)),
    decreases s.len() - i,
{
    lemma_find_from(s, i, '\n');
    let e = find_from(s, i, '\n');
    let acc2 = match line_entry(s.subrange(i, e)) {
        Some(p) => upsert(acc, p.0, p.1),
        None => acc,
    };
    match line_entry(s.subrange(i, e)) {
        Some(p) => {
            lemma_upsert_keeps_sorted(acc, p.0, p.1);
        },
        None => {},
    }
    if e < s.len() {
        lemma_enum_entries_sorted(s, e + 1, acc2);
    }
}

/// One transition of the enumeration pass at event `i`.
pub open spec fn enum_handle(events: Seq<MdEvent>, i: int, enums: Seq<EnumerationV>) -> Result<
    (Seq<EnumerationV>, int),
    ExtractError,
>
    recommends
        0 <= i < events.len(),
{
    match events[i] {
        MdEvent::HeadingStart(level) => if level == 3 {
            match read_text(events, i + 1) {
                None => Err(ExtractError::MissingText),
                Some((t, j)) => Ok(
                    (enums.push(EnumerationV { name: t, mappings: Seq::empty() }), j),
                ),
            }
        } else {
            Ok((enums, i + 1))
        },
        MdEvent::CodeBlockStart => if i + 1 >= events.len() {
            Err(ExtractError::MissingText)
        } else {
            match events[i + 1] {
                MdEvent::Text(t) => if enums.len() == 0 {
                    Err(ExtractError::NoEnum)
                } else {
                    Ok(
                        (
                            enums.update(
                                enums.len() - 1,
                                EnumerationV {
                                    name: enums.last().name,
                                    mappings: enum_entries_from(t@, 0, enums.last().mappings),
                                },
                            ),
                            i + 2,
                        ),
                    )
                },
                _ => Ok((enums, i + 2)),
            }
        },
        _ => Ok((enums, i + 1)),
    }
}

pub proof fn lemma_enum_handle_advance(events: Seq<MdEvent>, i: int, enums: Seq<EnumerationV>)
    requires
        0 <= i < events.len(),
    ensures
        match enum_handle(events, i, enums) {
            Ok(r) => i < r.1 <= events.len(),
            Err(_) => true,
        },
{
}

/// The whole enumeration pass from `i`.
pub open spec fn enum_scan(events: Seq<MdEvent>, i: int, enums: Seq<EnumerationV>) -> Result<
    Seq<EnumerationV>,
    ExtractError,
>
    decreases events.len() - i when 0 <= i <= events.len()
        via enum_scan_decreases
{
    if i >= events.len() {
        Ok(enums)
    } else {
        match enum_handle(events, i, enums) {
            Err(e) => Err(e),
            Ok((es2, j)) => enum_scan(events, j, es2),
        }
    }
}

#[via_fn]
proof fn enum_scan_decreases(events: Seq<MdEvent>, i: int, enums: Seq<EnumerationV>) {
    if 0 <= i < events.len() {
        lemma_enum_handle_advance(events, i, enums);
    }
}

/// Fills an enumeration from a code block's text: each newline-separated
/// line with exactly one `=` contributes a mapping, its key and value
/// trimmed and stripped of double quotes; any other line is skipped.
pub fn process_enum_mappings(enum_obj: &mut Enumeration, mappings: String)
    ensures
        final(enum_obj).deep_view() == (EnumerationV {
            name: old(enum_obj).deep_view().name,
            mappings: enum_entries_from(mappings@, 0, old(enum_obj).deep_view().mappings),
        }),
{
    let ghost orig = enum_obj.mappings.deep_view();
    let s = mappings.as_str();
    let n: usize = s.unicode_len();
    let mut cur: usize = 0;
    while cur < n
        invariant
            0 <= cur <= n,
            n == mappings@.len(),
            s@ == mappings@,
            enum_obj.deep_view().name == old(enum_obj).deep_view().name,
            enum_entries_from(mappings@, 0, orig) == enum_entries_from(
                mappings@,
                cur as int,
                enum_obj.mappings.deep_view(),
            ),
            orig == old(enum_obj).deep_view().mappings,
        decreases n - cur,
    {
        let e: usize = find_char(s, cur, '\n');
        let line = s.substring_char(cur, e);
        let linelen: usize = line.unicode_len();
        let p: usize = find_char(line, 0, '=');
        if p < linelen && find_char(line, p + 1, '=') == linelen {
            let key_side = trim_str(line.substring_char(0, p));
            let key = sans_quotes_str(key_side.as_str());
            let value_side = trim_str(line.substring_char(p + 1, linelen));
            let value = sans_quotes_str(value_side.as_str());
            enum_obj.insert(key, value);
        }
        if e >= n {
            cur = n;
        } else {
            cur = e + 1;
        }
    }
    proof {
        assert(enum_entries_from(mappings@, n as int, enum_obj.mappings.deep_view())
            == enum_obj.mappings.deep_view());
    }
}

/// Processes one event of the enumeration pass and returns the position of
/// the next event to process.
pub fn process_enum_event(events: &Vec<MdEvent>, i: usize, enums: &mut Vec<Enumeration>) -> (r:
    Result<usize, ExtractError>)
    requires
        (i as int) < events@.len(),
    ensures
        match r {
            Ok(j) => enum_handle(events@, i as int, old(enums).deep_view()) == Ok::<
                _,
                ExtractError,
            >((final(enums).deep_view(), j as int)),
            Err(e) => enum_handle(events@, i as int, old(enums).deep_view()) == Err::<
                (Seq<EnumerationV>, int),
                _,
            >(e),
        },
{
    let ghost orig = enums.deep_view();
    let n: usize = events.len();
    match &events[i] {
        MdEvent::HeadingStart(level) => {
            if *level == 3 {
                match extract_name(events, i + 1) {
                    Ok((t, j)) => {
                        let e = Enumeration::new(t);
                        let ghost ev = e.deep_view();
                        enums.push(e);
                        proof {
                            assert(enums.deep_view() =~= orig.push(ev));
                        }
                        Ok(j)
                    },
                    Err(e) => Err(e),
                }
            } else {
                Ok(i + 1)
            }
        },
        MdEvent::CodeBlockStart => {
            if n - i > 1 {
                match &events[i + 1] {
                    MdEvent::Text(t) => {
                        if enums.len() == 0 {
                            return Err(ExtractError::NoEnum);
                        }
                        let mut last = match enums.pop() {
                            Some(e) => e,
                            None => {
                                proof {
                                    assert(false);
                                }
                                return Err(ExtractError::NoEnum);
                            },
                        };
                        process_enum_mappings(&mut last, t.clone());
                        let ghost lv = last.deep_view();
                        enums.push(last);
                        proof {
                            assert(enums.deep_view() =~= orig.update(orig.len() - 1, lv));
                        }
                        Ok(i + 2)
                    },
                    _ => Ok(i + 2),
                }
            } else {
                Err(ExtractError::MissingText)
            }
        },
        _ => Ok(i + 1),
    }
}

/// Runs the enumeration pass over the whole event stream.
pub fn extract_enums(events: &Vec<MdEvent>) -> (r: Result<Vec<Enumeration>, ExtractError>)
    ensures
        match r {
            Ok(es) => enum_scan(events@, 0, Seq::empty()) == Ok::<_, ExtractError>(es.deep_view()),
            Err(e) => enum_scan(events@, 0, Seq::empty()) == Err::<Seq<EnumerationV>, _>(e),
        },
{
    let n: usize = events.len();
    let mut enums: Vec<Enumeration> = Vec::new();
    let mut i: usize = 0;
    proof {
        assert(enums.deep_view() =~= Seq::<EnumerationV>::empty());
    }
    while i < n
        invariant
            0 <= i <= n,
            n == events@.len(),
            enum_scan(events@, 0, Seq::empty()) == enum_scan(
                events@,
                i as int,
                enums.deep_view(),
            ),
        decreases n - i,
    {
        let ghost pre = enums.deep_view();
        match process_enum_event(events, i, &mut enums) {
            Ok(j) => {
                proof {
                    lemma_enum_handle_advance(events@, i as int, pre);
                }
                i = j;
            },
            Err(e) => {
                return Err(e);
            },
        }
    }
    Ok(enums)
}

/// The objects that survive finalization: those with at least one attribute.
pub open spec fn kept_objects_from(objs: Seq<ObjectV>, i: int) -> Seq<ObjectV>
    decreases objs.len() - i when 0 <= i <= objs.len()
{
    if i >= objs.len() {
        Seq::empty()
    } else if objs[i].attributes.len() > 0 {
        seq![objs[i]] + kept_objects_from(objs, i + 1)
    } else {
        kept_objects_from(objs, i + 1)
    }
}

/// The enumerations that survive finalization: those with at least one
/// mapping.
pub open spec fn kept_enums_from(es: Seq<EnumerationV>, i: int) -> Seq<EnumerationV>
    decreases es.len() - i when 0 <= i <= es.len()
{
    if i >= es.len() {
        Seq::empty()
    } else if es[i].mappings.len() > 0 {
        seq![es[i]] + kept_enums_from(es, i + 1)
    } else {
        kept_enums_from(es, i + 1)
    }
}

/// The model extracted from an event stream under a given configuration:
/// the object pass, the independent enumeration pass, then finalization,
/// which drops attribute-less objects and empty enumerations.
pub open spec fn extract_model(events: Seq<MdEvent>, config: Option<FrontMatterV>) -> Result<
    DataModelV,
    ExtractError,
> {
    match obj_scan(events, 0, (ObjState { name: None, objects: Seq::empty() })) {
        Err(e) => Err(e),
        Ok(st) => match enum_scan(events, 0, Seq::empty()) {
            Err(e) => Err(e),
            Ok(es) => Ok(
                DataModelV {
                    name: st.name,
                    config,
                    objects: kept_objects_from(st.objects, 0),
                    enums: kept_enums_from(es, 0),
                },
            ),
        },
    }
}

/// Keeps the objects with at least one attribute.
fn filter_objects(objects: Vec<Object>) -> (r: Vec<Object>)
    ensures
        r.deep_view() == kept_objects_from(objects.deep_view(), 0),
{
    let n: usize = objects.len();
    let ghost ov = objects.deep_view();
    let mut out: Vec<Object> = Vec::new();
    let mut i: usize = 0;
    proof {
        assert(out.deep_view() =~= Seq::<ObjectV>::empty());
    }
    let mut rest = objects;
    let mut taken: usize = 0;
    while taken < n
        invariant
            0 <= taken <= n,
            n == ov.len(),
            rest@.len() == n - taken,
            rest.deep_view() =~= ov.subrange(taken as int, n as int),
            out.deep_view() + kept_objects_from(ov, taken as int) == kept_objects_from(ov, 0),
        decreases n - taken,
    {
        let ghost restpre = rest.deep_view();
        let ghost restraw = rest@;
        let o = rest.remove(0);
        let ghost pre = out.deep_view();
        let keep = o.has_attributes();
        let ghost odv = o.deep_view();
        proof {
            assert(odv == restpre[0]);
            assert(odv == ov[taken as int]);
            assert forall|j: int| 0 <= j < rest@.len() implies rest.deep_view()[j] == restpre[j
                + 1] by {
                assert(rest@[j] == restraw[j + 1]);
            }
            assert(rest.deep_view() =~= ov.subrange(taken + 1, n as int));
        }
        if keep {
            out.push(o);
            proof {
                assert(out.deep_view() =~= pre.push(odv));
                assert(pre.push(odv) + kept_objects_from(ov, taken + 1) =~= pre + (seq![odv]
                    + kept_objects_from(ov, taken + 1)));
            }
        }
        taken = taken + 1;
    }
    proof {
        assert(out.deep_view() + kept_objects_from(ov, n as int) =~= out.deep_view());
    }
    out
}

/// Keeps the enumerations with at least one mapping.
fn filter_enums(enums: Vec<Enumeration>) -> (r: Vec<Enumeration>)
    ensures
        r.deep_view() == kept_enums_from(enums.deep_view(), 0),
{
    let n: usize = enums.len();
    let ghost ev = enums.deep_view();
    let mut out: Vec<Enumeration> = Vec::new();
    proof {
        assert(out.deep_view() =~= Seq::<EnumerationV>::empty());
    }
    let mut rest = enums;
    let mut taken: usize = 0;
    while taken < n
        invariant
            0 <= taken <= n,
            n == ev.len(),
            rest@.len() == n - taken,
            rest.deep_view() =~= ev.subrange(taken as int, n as int),
            out.deep_view() + kept_enums_from(ev, taken as int) == kept_enums_from(ev, 0),
        decreases n - taken,
    {
        let ghost restpre = rest.deep_view();
        let ghost restraw = rest@;
        let e = rest.remove(0);
        let ghost pre = out.deep_view();
        let keep = e.has_values();
        let ghost edv = e.deep_view();
        proof {
            assert(edv == restpre[0]);
            assert(edv == ev[taken as int]);
            assert forall|j: int| 0 <= j < rest@.len() implies rest.deep_view()[j] == restpre[j
                + 1] by {
                assert(rest@[j] == restraw[j + 1]);
            }
            assert(rest.deep_view() =~= ev.subrange(taken + 1, n as int));
        }
        if keep {
            out.push(e);
            proof {
                assert(out.deep_view() =~= pre.push(edv));
                assert(pre.push(edv) + kept_enums_from(ev, taken + 1) =~= pre + (seq![edv]
                    + kept_enums_from(ev, taken + 1)));
            }
        }
        taken = taken + 1;
    }
    proof {
        assert(out.deep_view() + kept_enums_from(ev, n as int) =~= out.deep_view());
    }
    out
}

/// Builds the data model from an event stream: both passes, finalization,
/// and assembly with the supplied configuration.
pub fn build_data_model(events: &Vec<MdEvent>, config: Option<FrontMatter>) -> (r: Result<
    DataModel,
    ExtractError,
>)
    ensures
        match r {
            Ok(m) => extract_model(events@, config.deep_view()) == Ok::<_, ExtractError>(
                m.deep_view(),
            ),
            Err(e) => extract_model(events@, config.deep_view()) == Err::<DataModelV, _>(e),
        },
{
    let (name, objects) = match extract_objects(events) {
        Ok(p) => p,
        Err(e) => {
            return Err(e);
        },
    };
    let enums = match extract_enums(events) {
        Ok(es) => es,
        Err(e) => {
            return Err(e);
        },
    };
    let model = DataModel {
        name,
        config,
        objects: filter_objects(objects),
        enums: filter_enums(enums),
    };
    Ok(model)
}

pub proof fn lemma_kept_objects_nonempty(objs: Seq<ObjectV>, i: int)
    requires
        0 <= i <= objs.len(),
    ensures
        forall|k: int|
            0 <= k < kept_objects_from(objs, i).len() ==> #[trigger] kept_objects_from(
                objs,
                i,
            )[k].attributes.len() > 0,
    decreases objs.len() - i,
{
    if i < objs.len() {
        lemma_kept_objects_nonempty(objs, i + 1);
    }
}

pub proof fn lemma_kept_enums_nonempty(es: Seq<EnumerationV>, i: int)
    requires
        0 <= i <= es.len(),
    ensures
        forall|k: int|
            0 <= k < kept_enums_from(es, i).len() ==> #[trigger] kept_enums_from(
                es,
                i,
            )[k].mappings.len() > 0,
    decreases es.len() - i,
{
    if i < es.len() {
        lemma_kept_enums_nonempty(es, i + 1);
        if es[i].mappings.len() > 0 {
            assert forall|k: int|
                0 <= k < kept_enums_from(es, i).len() implies #[trigger] kept_enums_from(
                es,
                i,
            )[k].mappings.len() > 0 by {
                if k == 0 {
                    assert(kept_enums_from(es, i)[0] == es[i]);
                } else {
                    assert(kept_enums_from(es, i)[k] == kept_enums_from(es, i + 1)[k - 1]);
                }
            }
        } else {
            assert(kept_enums_from(es, i) == kept_enums_from(es, i + 1));
            assert forall|k: int|
                0 <= k < kept_enums_from(es, i).len() implies #[trigger] kept_enums_from(
                es,
                i,
            )[k].mappings.len() > 0 by {
                assert(kept_enums_from(es, i)[k] == kept_enums_from(es, i + 1)[k]);
            }
        }
    }
}

proof fn lemma_kept_objects_identity(objs: Seq<ObjectV>, i: int)
    requires
        0 <= i <= objs.len(),
        forall|k: int| i <= k < objs.len() ==> #[trigger] objs[k].attributes.len() > 0,
    ensures
        kept_objects_from(objs, i) =~= objs.subrange(i, objs.len() as int),
    decreases objs.len() - i,
{
    if i < objs.len() {
        lemma_kept_objects_identity(objs, i + 1);
        assert(kept_objects_from(objs, i) =~= objs.subrange(i, objs.len() as int));
    }
}

proof fn lemma_kept_enums_identity(es: Seq<EnumerationV>, i: int)
    requires
        0 <= i <= es.len(),
        forall|k: int| i <= k < es.len() ==> #[trigger] es[k].mappings.len() > 0,
    ensures
        kept_enums_from(es, i) =~= es.subrange(i, es.len() as int),
    decreases es.len() - i,
{
    if i < es.len() {
        lemma_kept_enums_identity(es, i + 1);
        assert(kept_enums_from(es, i) =~= es.subrange(i, es.len() as int));
    }
}

/// Finalization is idempotent: filtering the objects that survived a filter
/// changes nothing, so extracting twice yields identical filtered results.
pub proof fn lemma_filter_objects_idempotent(objs: Seq<ObjectV>)
    ensures
        kept_objects_from(kept_objects_from(objs, 0), 0) == kept_objects_from(objs, 0),
{
    lemma_kept_objects_nonempty(objs, 0);
    let kept = kept_objects_from(objs, 0);
    lemma_kept_objects_identity(kept, 0);
    assert(kept.subrange(0, kept.len() as int) =~= kept);
}

/// Finalization is idempotent for enumerations as well.
pub proof fn lemma_filter_enums_idempotent(es: Seq<EnumerationV>)
    ensures
        kept_enums_from(kept_enums_from(es, 0), 0) == kept_enums_from(es, 0),
{
    lemma_kept_enums_nonempty(es, 0);
    let kept = kept_enums_from(es, 0);
    lemma_kept_enums_identity(kept, 0);
    assert(kept.subrange(0, kept.len() as int) =~= kept);
}

/// Once the model has a name, the rest of the object pass keeps it: the
/// first level-1 heading wins.
pub proof fn lemma_first_name_wins(events: Seq<MdEvent>, i: int, st: ObjState)
    requires
        0 <= i <= events.len(),
        st.name is Some,
    ensures
        match obj_scan(events, i, st) {
            Ok(st2) => st2.name == st.name,
            Err(_) => true,
        },
    decreases events.len() - i,
{
    if i < events.len() {
        match obj_handle(events, i, st) {
            Ok((st2, j)) => {
                assert(st2.name == st.name);
                lemma_obj_handle_advance(events, i, st);
                lemma_first_name_wins(events, j, st2);
            },
            Err(_) => {},
        }
    }
}

/// A level-1 heading reached by the scan while the model is still unnamed
/// names it after the heading's text run, whatever follows.
pub proof fn lemma_level1_heading_names_model_from(
    events: Seq<MdEvent>,
    i: int,
    st: ObjState,
    t: Seq<char>,
)
    requires
        0 <= i < events.len(),
        st.name is None,
        events[i] == MdEvent::HeadingStart(1u32),
        read_text(events, i + 1) == Some((t, i + 2int)),
    ensures
        match obj_scan(events, i, st) {
            Ok(st2) => st2.name == Some(t),
            Err(_) => true,
        },
{
    match obj_handle(events, i, st) {
        Ok((st1, j)) => {
            assert(st1.name == Some(t));
            assert(j == i + 2 <= events.len());
            lemma_first_name_wins(events, j, st1);
        },
        Err(_) => {
            assert(false);
        },
    }
}

/// A document whose events open with a level-1 heading and its text run is
/// named after that text, whatever follows.
pub proof fn lemma_level1_heading_names_model(
    events: Seq<MdEvent>,
    config: Option<FrontMatterV>,
    t: Seq<char>,
)
    requires
        events.len() >= 2,
        events[0] == MdEvent::HeadingStart(1u32),
        events[1] matches MdEvent::Text(s) && s@ == t,
    ensures
        match extract_model(events, config) {
            Ok(m) => m.name == Some(t),
            Err(_) => true,
        },
{
    let st0 = ObjState { name: None, objects: Seq::empty() };
    lemma_level1_heading_names_model_from(events, 0, st0, t);
}

/// A text run found at once yields an optional attribute.
pub proof fn lemma_direct_text_optional(events: Seq<MdEvent>, i: int)
    requires
        read_text(events, i) is Some,
    ensures
        read_attr_text(events, i) == Some(
            (false, read_text(events, i)->Some_0.0, read_text(events, i)->Some_0.1),
        ),
{
}

/// A text run recovered only on a retry (a markup wrapper stood before it)
/// yields a required attribute.
pub proof fn lemma_recovered_text_required(events: Seq<MdEvent>, i: int)
    requires
        read_text(events, i) is None,
        read_text(events, i + 1) is Some || read_text(events, i + 2) is Some,
    ensures
        read_attr_text(events, i) matches Some(r) && r.0 == true,
{
}

/// A `:`-delimited string attaches its pair to the last attribute of the
/// last object and touches nothing else: earlier objects, earlier
/// attributes, and the object's own name and term stay as they were.
pub proof fn lemma_option_attaches_to_last_attribute(objects: Seq<ObjectV>, s: Seq<char>)
    requires
        objects.len() > 0,
        objects.last().attributes.len() > 0,
        has_char(s, ':'),
    ensures
        ({
            let r = distribute_one(objects, s);
            &&& r.len() == objects.len()
            &&& forall|k: int| 0 <= k < objects.len() - 1 ==> r[k] == objects[k]
            &&& r.last().name == objects.last().name
            &&& r.last().term == objects.last().term
            &&& r.last().attributes.len() == objects.last().attributes.len()
            &&& forall|k: int|
                0 <= k < objects.last().attributes.len() - 1 ==> r.last().attributes[k]
                    == objects.last().attributes[k]
            &&& r.last().attributes.last().name == objects.last().attributes.last().name
            &&& r.last().attributes.last().required == objects.last().attributes.last().required
            &&& r.last().attributes.last().options == objects.last().attributes.last().options.push(
                AttrOptionV { key: opt_key(s), value: opt_value(s) },
            )
        }),
{
}

proof fn lemma_distribute_one_identity(objects: Seq<ObjectV>, s: Seq<char>)
    ensures
        distribute_one(objects, s).len() == objects.len(),
        forall|k: int|
            0 <= k < objects.len() ==> #[trigger] distribute_one(objects, s)[k].name
                == objects[k].name && distribute_one(objects, s)[k].term == objects[k].term,
{
}

proof fn lemma_distribute_from_identity(objects: Seq<ObjectV>, strs: Seq<Seq<char>>, k: int)
    requires
        0 <= k <= strs.len(),
    ensures
        distribute_from(objects, strs, k).len() == objects.len(),
        forall|j: int|
            0 <= j < objects.len() ==> #[trigger] distribute_from(objects, strs, k)[j].name
                == objects[j].name && distribute_from(objects, strs, k)[j].term
                == objects[j].term,
    decreases strs.len() - k,
{
    if k < strs.len() {
        lemma_distribute_one_identity(objects, strs[k]);
        lemma_distribute_from_identity(distribute_one(objects, strs[k]), strs, k + 1);
    }
}

/// The object pass never renames an object nor changes its term once the
/// object exists: later events only grow its attributes or add objects.
pub proof fn lemma_object_identity_stable(events: Seq<MdEvent>, i: int, st: ObjState, k: int)
    requires
        0 <= i <= events.len(),
        0 <= k < st.objects.len(),
    ensures
        match obj_scan(events, i, st) {
            Ok(st2) => k < st2.objects.len() && st2.objects[k].name == st.objects[k].name
                && st2.objects[k].term == st.objects[k].term,
            Err(_) => true,
        },
    decreases events.len() - i,
{
    if i < events.len() {
        match obj_handle(events, i, st) {
            Ok((st2, j)) => {
                lemma_obj_handle_advance(events, i, st);
                match events[i] {
                    MdEvent::ListStart => {
                        if st.objects.len() > 0 && st.objects.last().attributes.len() > 0 {
                            match options_walk(events, i + 1, Seq::empty()) {
                                Ok(p) => {
                                    lemma_distribute_from_identity(st.objects, p.0, 0);
                                },
                                Err(_) => {},
                            }
                        }
                    },
                    _ => {},
                }
                assert(k < st2.objects.len() && st2.objects[k].name == st.objects[k].name
                    && st2.objects[k].term == st.objects[k].term);
                lemma_object_identity_stable(events, j, st2, k);
            },
            Err(_) => {},
        }
    }
}

/// A level-3 heading reached by the scan declares one more object: it is
/// named by the heading's first token and carries the heading's first
/// parenthesised group as its term, and keeps both whatever follows in the
/// document.
pub proof fn lemma_level3_heading_declares_object_from(
    events: Seq<MdEvent>,
    i: int,
    st: ObjState,
    h: Seq<char>,
)
    requires
        0 <= i < events.len(),
        events[i] == MdEvent::HeadingStart(3u32),
        read_text(events, i + 1) == Some((h, i + 2int)),
        first_token(h) is Some,
    ensures
        match obj_scan(events, i, st) {
            Ok(st2) => st2.objects.len() > st.objects.len() && st2.objects[st.objects.len() as int].name
                == first_token(h)->Some_0 && st2.objects[st.objects.len() as int].term == term_of(h),
            Err(_) => true,
        },
{
    match obj_handle(events, i, st) {
        Ok((st1, j)) => {
            assert(j == i + 2 <= events.len());
            assert(st1.objects[st.objects.len() as int] == object_of_heading(h)->Some_0);
            lemma_object_identity_stable(events, j, st1, st.objects.len() as int);
        },
        Err(_) => {},
    }
}

/// A level-3 heading at the stream's start declares the first object.
pub proof fn lemma_level3_heading_declares_object(events: Seq<MdEvent>, h: Seq<char>)
    requires
        events.len() >= 1,
        events[0] == MdEvent::HeadingStart(3u32),
        read_text(events, 1) == Some((h, 2int)),
        first_token(h) is Some,
    ensures
        match obj_scan(events, 0, (ObjState { name: None, objects: Seq::empty() })) {
            Ok(st) => st.objects.len() > 0 && st.objects[0].name == first_token(h)->Some_0
                && st.objects[0].term == term_of(h),
            Err(_) => true,
        },
{
    let st0 = ObjState { name: None, objects: Seq::empty() };
    lemma_level3_heading_declares_object_from(events, 0, st0, h);
}

/// A first object that ends the pass with at least one attribute survives
/// finalization unchanged, still in first position.
pub proof fn lemma_first_object_kept(objs: Seq<ObjectV>)
    requires
        objs.len() > 0,
        objs[0].attributes.len() > 0,
    ensures
        kept_objects_from(objs, 0).len() > 0,
        kept_objects_from(objs, 0)[0] == objs[0],
{
}

/// Parses a document's text into its data model: strips angle-bracket tag
/// spans, tokenizes, and extracts under the supplied configuration. The
/// result is exactly the model extracted from the stripped text's event
/// stream; a returned model moreover carries the supplied configuration, and
/// every object and enumeration in it is non-empty.
pub fn parse_markdown_content(content: &str, config: Option<FrontMatter>) -> (r: Result<
    DataModel,
    ExtractError,
>)
    ensures
        match r {
            Ok(m) => {
                &&& extract_model(
                    crate::events::doc_events(crate::strutil::strip_tags(content@)),
                    config.deep_view(),
                ) == Ok::<_, ExtractError>(m.deep_view())
                &&& m.deep_view().config == config.deep_view()
                &&& forall|k: int|
                    0 <= k < m.deep_view().objects.len()
                        ==> #[trigger] m.deep_view().objects[k].attributes.len() > 0
                &&& forall|k: int|
                    0 <= k < m.deep_view().enums.len()
                        ==> #[trigger] m.deep_view().enums[k].mappings.len() > 0
            },
            Err(e) => extract_model(
                crate::events::doc_events(crate::strutil::strip_tags(content@)),
                config.deep_view(),
            ) == Err::<DataModelV, _>(e),
        },
{
    let stripped = crate::strutil::strip_html(content);
    let events = crate::events::tokenize(stripped.as_str());
    let r = build_data_model(&events, config);
    proof {
        match &r {
            Ok(m) => {
                match obj_scan(events@, 0, (ObjState { name: None, objects: Seq::empty() })) {
                    Ok(st) => {
                        lemma_kept_objects_nonempty(st.objects, 0);
                    },
                    Err(_) => {},
                }
                match enum_scan(events@, 0, Seq::empty()) {
                    Ok(es) => {
                        lemma_kept_enums_nonempty(es, 0);
                    },
                    Err(_) => {},
                }
            },
            Err(_) => {},
        }
    }
    r
}

/// Extracting a document and extracting its tag-stripped text yield the same
/// result: tag removal happens before any structural interpretation and is
/// idempotent.
pub proof fn lemma_extraction_strip_invariant(content: Seq<char>, config: Option<FrontMatterV>)
    ensures
        extract_model(
            crate::events::doc_events(crate::strutil::strip_tags(crate::strutil::strip_tags(content))),
            config,
        ) == extract_model(crate::events::doc_events(crate::strutil::strip_tags(content)), config),
{
    crate::strutil::lemma_strip_tags_idempotent(content);
}

} // verus!
