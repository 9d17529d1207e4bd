//! Elements found in HTML pages by CSS selectors.

use vstd::prelude::*;
use kuchiki::traits::TendrilSink;

verus! {

/// An element of a page: its text (all the text inside it, in order) and its attributes
/// as local name and value.
#[derive(Debug)]
pub struct Element {
    pub text: String,
    pub attributes: Vec<(String, String)>,
}

/// An element in plain values: its text and its attributes.
pub type ElementView = (Seq<char>, Seq<(Seq<char>, Seq<char>)>);

/// The view of an element.
pub open spec fn element_view(e: Element) -> ElementView {
    (e.text@, e.attributes@.map_values(|a: (String, String)| (a.0@, a.1@)))
}

/// The views of some elements.
pub open spec fn element_views(es: Seq<Element>) -> Seq<ElementView> {
    es.map_values(|e: Element| element_view(e))
}

/// The views of the matches of selectors inside one element: none for a selector that
/// does not parse.
pub open spec fn within_views(w: Seq<Option<Vec<Element>>>) -> Seq<Option<Seq<ElementView>>> {
    w.map_values(|o: Option<Vec<Element>>| match o {
        Some(es) => Some(element_views(es@)),
        None => None,
    })
}

/// The views of what a selection found.
pub open spec fn found_views(r: Option<Vec<(Element, Vec<Option<Vec<Element>>>)>>) -> Option<Seq<(ElementView, Seq<Option<Seq<ElementView>>>)>> {
    match r {
        Some(v) => Some(v@.map_values(|f: (Element, Vec<Option<Vec<Element>>>)| (element_view(f.0), within_views(f.1@)))),
        None => None,
    }
}

/// The views of some selectors.
pub open spec fn selector_views(ss: Seq<&str>) -> Seq<Seq<char>> {
    ss.map_values(|s: &str| s@)
}

/// What kuchiki finds in a page parsed by `kuchiki::parse_html`: for each element that
/// matches `outer` (`NodeRef::select`, in document order), the element, and for each of
/// the `inners` the elements matching it among the element and its descendants, none for
/// a selector that does not parse; none at all when `outer` does not parse.
pub uninterp spec fn css_select_within(page: Seq<char>, outer: Seq<char>, inners: Seq<Seq<char>>) -> Option<Seq<(ElementView, Seq<Option<Seq<ElementView>>>)>>;

/// Parses a page (`kuchiki::parse_html`) and selects the elements matching `outer`, with
/// the matches of each of `inners` inside each (`NodeRef::select`), taking each element's
/// `text_contents` and attributes. Claims that the result is `css_select_within` of the
/// page and selectors.
#[verifier::external_body]
pub fn select_within(page: &str, outer: &str, inners: &Vec<&str>) -> (r: Option<Vec<(Element, Vec<Option<Vec<Element>>>)>>)
    ensures
        found_views(r) == css_select_within(page@, outer@, selector_views(inners@)),
        match r {
            Some(v) => forall|i: int| 0 <= i < v@.len() ==> (#[trigger] v@[i]).1@.len() == inners@.len(),
            None => true,
        },
{
    let doc = kuchiki::parse_html().one(page);
    let element = |e: &kuchiki::NodeDataRef<kuchiki::ElementData>| Element {
        text: e.text_contents(),
        attributes: e.attributes.borrow().map.iter().map(|(k, a)| (k.local.to_string(), a.value.clone())).collect(),
    };
    let found = doc.select(outer).ok()?;
    Some(found.map(|m| {
        let within = inners.iter().map(|s| m.as_node().select(s).ok().map(|es| es.map(|e| element(&e)).collect()));
        (element(&m), within.collect())
    }).collect())
}

/// The elements of a page that match a selector, in document order; none when the
/// selector does not parse.
pub open spec fn matches_of(page: Seq<char>, selector: Seq<char>) -> Option<Seq<ElementView>> {
    match css_select_within(page, selector, Seq::empty()) {
        Some(fs) => Some(fs.map_values(|f: (ElementView, Seq<Option<Seq<ElementView>>>)| f.0)),
        None => None,
    }
}

/// The elements of a page that match a selector (see `matches_of`).
pub fn select(page: &str, selector: &str) -> (r: Option<Vec<Element>>)
    ensures
        match r {
            Some(v) => matches_of(page@, selector@) == Some(element_views(v@)),
            None => matches_of(page@, selector@) is None,
        },
{
    let inners: Vec<&str> = Vec::new();
    proof {
        assert(selector_views(inners@) =~= Seq::<Seq<char>>::empty());
    }
    let mut found = match select_within(page, selector, &inners) {
        Some(found) => found,
        None => {
            return None;
        },
    };
    let ghost all = found_views(Some(found))->0.map_values(|f: (ElementView, Seq<Option<Seq<ElementView>>>)| f.0);
    let mut out: Vec<Element> = Vec::new();
    while found.len() > 0
        invariant
            element_views(out@) + found_views(Some(found))->0.map_values(|f: (ElementView, Seq<Option<Seq<ElementView>>>)| f.0) == all,
        decreases found@.len(),
    {
        let ghost before = found@;
        let (e, _) = found.remove(0);
        proof {
            assert(found@ =~= before.drop_first());
            assert(e == before[0].0);
        }
        let ghost done = out@;
        out.push(e);
        proof {
            assert(element_views(out@) =~= element_views(done).push(element_view(e)));
            let rest_before = before.map_values(|f: (Element, Vec<Option<Vec<Element>>>)| (element_view(f.0), within_views(f.1@)))
                .map_values(|f: (ElementView, Seq<Option<Seq<ElementView>>>)| f.0);
            let rest_after = found@.map_values(|f: (Element, Vec<Option<Vec<Element>>>)| (element_view(f.0), within_views(f.1@)))
                .map_values(|f: (ElementView, Seq<Option<Seq<ElementView>>>)| f.0);
            assert(rest_before =~= seq![element_view(e)] + rest_after);
            assert(element_views(out@) + rest_after =~= element_views(done) + rest_before);
        }
    }
    proof {
        assert(element_views(out@) + Seq::<ElementView>::empty() =~= element_views(out@));
    }
    Some(out)
}

/// The value of an attribute of the first element of a page that matches a selector;
/// none when the selector does not parse, nothing matches or the attribute is missing.
pub open spec fn first_attribute_of(page: Seq<char>, selector: Seq<char>, name: Seq<char>) -> Option<Seq<char>> {
    match matches_of(page, selector) {
        Some(es) => if es.len() > 0 { attribute_value(es[0].1, name) } else { None },
        None => None,
    }
}

/// The value of an attribute of the first element that matches a selector (see
/// `first_attribute_of`).
pub fn first_attribute(page: &str, selector: &str, name: &str) -> (r: Option<String>)
    ensures
        optional_view(r) == first_attribute_of(page@, selector@, name@),
{
    match select(page, selector) {
        Some(es) => if es.len() > 0 {
            proof {
                assert(element_views(es@)[0] == element_view(es@[0]));
            }
            attribute(&es[0], name)
        } else {
            None
        },
        None => None,
    }
}

/// The view of an optional string.
pub open spec fn optional_view(o: Option<String>) -> Option<Seq<char>> {
    match o {
        Some(s) => Some(s@),
        None => None,
    }
}

/// The value of the first attribute with a name, if any.
pub open spec fn attribute_value(attrs: Seq<(Seq<char>, Seq<char>)>, name: Seq<char>) -> Option<Seq<char>>
    decreases attrs.len(),
{
    if attrs.len() == 0 {
        None
    } else if attrs[0].0 == name {
        Some(attrs[0].1)
    } else {
        attribute_value(attrs.drop_first(), name)
    }
}

/// The value of an element's attribute (see `attribute_value`).
pub fn attribute(e: &Element, name: &str) -> (r: Option<String>)
    ensures
        match r {
            Some(v) => attribute_value(element_view(*e).1, name@) == Some(v@),
            None => attribute_value(element_view(*e).1, name@) is None,
        },
{
    let ghost attrs = element_view(*e).1;
    let mut i: usize = 0;
    proof {
        assert(attrs.skip(0) =~= attrs);
    }
    while i < e.attributes.len()
        invariant
            i <= e.attributes@.len(),
            attrs == element_view(*e).1,
            attrs.len() == e.attributes@.len(),
            attribute_value(attrs, name@) == attribute_value(attrs.skip(i as int), name@),
        decreases e.attributes@.len() - i,
    {
        proof {
            assert(attrs.skip(i as int)[0] == attrs[i as int]);
            assert(attrs.skip(i as int).drop_first() =~= attrs.skip(i + 1));
        }
        if crate::text::str_eq(e.attributes[i].0.as_str(), name) {
            return Some(e.attributes[i].1.clone());
        }
        i = i + 1;
    }
    None
}

/// The text of the first element, if any.
pub open spec fn first_text(es: Option<Seq<ElementView>>) -> Option<Seq<char>> {
    match es {
        Some(s) => if s.len() > 0 { Some(s[0].0) } else { None },
        None => None,
    }
}

/// The text of the first element found, if any (see `first_text`).
pub fn first_text_of(es: &Option<Vec<Element>>) -> (r: Option<String>)
    ensures
        match r {
            Some(t) => first_text(match es { Some(v) => Some(element_views(v@)), None => None }) == Some(t@),
            None => first_text(match es { Some(v) => Some(element_views(v@)), None => None }) is None,
        },
{
    match es {
        Some(v) => if v.len() > 0 {
            Some(v[0].text.clone())
        } else {
            None
        },
        None => None,
    }
}

} // verus!
