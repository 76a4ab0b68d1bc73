//! Exclusive XML canonicalization (XML-EXC-C14N 1.0) for a signed assertion.
//!
//! The rendering that is hashed, and the one the `SignedInfo` is verified under,
//! for the common case: no comments, no `InclusiveNamespaces` prefix list,
//! namespace declarations emitted where visibly used and not already rendered by
//! an ancestor, the empty default where an ancestor rendered another, attributes
//! ordered by namespace then local name, text and attribute values escaped. The
//! `xml:` attribute inheritance rule and the normalization of white space in
//! attribute values are not implemented; an assertion needing either does not
//! verify.

use crate::text::{same, split_once, split_str, strings_view, to_chars};
use crate::xml::{
    copy_pairs, nodes_view, pairs_view, prefix_of, Element, ElementModel, Node, NodeModel, Pair,
};
use vstd::prelude::*;

verus! {

/// A scope with one more declaration in it; an earlier one of the same prefix
/// gives way.
pub open spec fn declare(scope: Seq<Pair>, declaration: Pair) -> Seq<Pair> {
    scope.filter(|known: Pair| known.0 != declaration.0).push(declaration)
}

/// A scope with these declarations made in it, in order.
pub open spec fn declare_all(scope: Seq<Pair>, declarations: Seq<Pair>) -> Seq<Pair>
    decreases declarations.len(),
{
    if declarations.len() == 0 {
        scope
    } else {
        declare(declare_all(scope, declarations.drop_last()), declarations.last())
    }
}

/// The namespace a prefix stands for in a scope: the last declaration of it.
pub open spec fn namespace_of(scope: Seq<Pair>, prefix: Seq<char>) -> Option<Seq<char>>
    decreases scope.len(),
{
    if scope.len() == 0 {
        None
    } else if scope.last().0 == prefix {
        Some(scope.last().1)
    } else {
        namespace_of(scope.drop_last(), prefix)
    }
}

/// The prefixes of the attributes that have one.
pub open spec fn attribute_prefixes(attributes: Seq<Pair>) -> Seq<Seq<char>>
    decreases attributes.len(),
{
    if attributes.len() == 0 {
        Seq::empty()
    } else {
        let before = attribute_prefixes(attributes.drop_last());
        match split_once(attributes.last().0, ':') {
            Some((prefix, _)) => before.push(prefix),
            None => before,
        }
    }
}

/// The prefixes an element visibly uses: its own, then its attributes'.
pub open spec fn used_prefixes(element: ElementModel) -> Seq<Seq<char>> {
    seq![prefix_of(element.name)] + attribute_prefixes(element.attributes)
}

/// Whether one of the pairs has this name.
pub open spec fn names(pairs: Seq<Pair>, name: Seq<char>) -> bool {
    exists|i: int| 0 <= i < pairs.len() && (#[trigger] pairs[i]).0 == name
}

/// Whether a prefix is the empty one and stands for no namespace in the scope.
pub open spec fn stands_for_none(prefix: Seq<char>, scope: Seq<Pair>) -> bool {
    prefix.len() == 0 && match namespace_of(scope, prefix) {
        Some(uri) => uri.len() == 0,
        None => true,
    }
}

/// Whether ancestors rendered a default namespace that is not the empty one.
pub open spec fn default_rendered(rendered: Seq<Pair>) -> bool {
    namespace_of(rendered, Seq::empty()) matches Some(uri) && uri.len() > 0
}

/// The declaration that the use of a prefix calls for: the namespace it stands
/// for in the scope, unless an ancestor rendered that; where the empty prefix
/// stands for none, the empty default, if an ancestor rendered another.
pub open spec fn called_for_by(
    prefix: Seq<char>,
    scope: Seq<Pair>,
    rendered: Seq<Pair>,
) -> Option<Pair> {
    if stands_for_none(prefix, scope) {
        if default_rendered(rendered) {
            Some((prefix, Seq::empty()))
        } else {
            None
        }
    } else {
        match namespace_of(scope, prefix) {
            None => None,
            Some(uri) => if rendered.contains((prefix, uri)) {
                None
            } else {
                Some((prefix, uri))
            },
        }
    }
}

/// The declarations that the use of these prefixes calls for, each once.
pub open spec fn called_for(
    used: Seq<Seq<char>>,
    scope: Seq<Pair>,
    rendered: Seq<Pair>,
) -> Seq<Pair>
    decreases used.len(),
{
    if used.len() == 0 {
        Seq::empty()
    } else {
        let before = called_for(used.drop_last(), scope, rendered);
        match called_for_by(used.last(), scope, rendered) {
            Some(declaration) => if names(before, used.last()) {
                before
            } else {
                before.push(declaration)
            },
            None => before,
        }
    }
}

/// Whether one string stands at or before another in the order of their code
/// points.
pub open spec fn at_most(a: Seq<char>, b: Seq<char>) -> bool
    decreases a.len(),
{
    if a.len() == 0 {
        true
    } else if b.len() == 0 {
        false
    } else if a[0] != b[0] {
        a[0] < b[0]
    } else {
        at_most(a.drop_first(), b.drop_first())
    }
}

/// Whether one key stands at or before another: by the first part, then by the
/// second.
pub open spec fn key_at_most(a: Pair, b: Pair) -> bool {
    if a.0 != b.0 {
        at_most(a.0, b.0)
    } else {
        at_most(a.1, b.1)
    }
}

/// A pair put in its place among pairs in order, after those of an equal key.
pub open spec fn placed(sorted: Seq<Pair>, pair: Pair, key: spec_fn(Pair) -> Pair) -> Seq<Pair>
    decreases sorted.len(),
{
    if sorted.len() == 0 || key_at_most(key(sorted.last()), key(pair)) {
        sorted.push(pair)
    } else {
        placed(sorted.drop_last(), pair, key).push(sorted.last())
    }
}

/// The pairs in the order of their keys, those of equal keys as they stood.
pub open spec fn arranged(pairs: Seq<Pair>, key: spec_fn(Pair) -> Pair) -> Seq<Pair>
    decreases pairs.len(),
{
    if pairs.len() == 0 {
        Seq::empty()
    } else {
        placed(arranged(pairs.drop_last(), key), pairs.last(), key)
    }
}

/// The key a declaration is ordered by: its prefix.
pub open spec fn by_prefix() -> spec_fn(Pair) -> Pair {
    |declaration: Pair| (declaration.0, Seq::empty())
}

/// The namespace that the prefix `xml` stands for without being declared.
pub const XML_NAMESPACE: &'static str = "http://www.w3.org/XML/1998/namespace";

/// The key an attribute of this name is ordered by: its namespace, then its
/// local name.
pub open spec fn attribute_key(name: Seq<char>, scope: Seq<Pair>) -> Pair {
    match split_once(name, ':') {
        Some((prefix, local)) => match namespace_of(scope, prefix) {
            Some(uri) => (uri, local),
            None => if prefix == "xml"@ {
                (XML_NAMESPACE@, local)
            } else {
                (Seq::empty(), local)
            },
        },
        None => (Seq::empty(), name),
    }
}

/// The key an attribute is ordered by in a scope.
pub open spec fn by_namespace(scope: Seq<Pair>) -> spec_fn(Pair) -> Pair {
    |attribute: Pair| attribute_key(attribute.0, scope)
}

/// How a character of text is written.
pub open spec fn text_escape(c: char) -> Seq<char> {
    if c == '&' {
        "&amp;"@
    } else if c == '<' {
        "&lt;"@
    } else if c == '>' {
        "&gt;"@
    } else if c == '\r' {
        "&#xD;"@
    } else {
        seq![c]
    }
}

/// How a character of an attribute value is written.
pub open spec fn attribute_escape(c: char) -> Seq<char> {
    if c == '&' {
        "&amp;"@
    } else if c == '<' {
        "&lt;"@
    } else if c == '"' {
        "&quot;"@
    } else if c == '\t' {
        "&#x9;"@
    } else if c == '\n' {
        "&#xA;"@
    } else if c == '\r' {
        "&#xD;"@
    } else {
        seq![c]
    }
}

/// How text is written.
pub open spec fn escaped_text(text: Seq<char>) -> Seq<char>
    decreases text.len(),
{
    if text.len() == 0 {
        Seq::empty()
    } else {
        escaped_text(text.drop_last()) + text_escape(text.last())
    }
}

/// How an attribute value is written.
pub open spec fn escaped_attribute(value: Seq<char>) -> Seq<char>
    decreases value.len(),
{
    if value.len() == 0 {
        Seq::empty()
    } else {
        escaped_attribute(value.drop_last()) + attribute_escape(value.last())
    }
}

/// How a namespace declaration is written.
pub open spec fn declaration_text(declaration: Pair) -> Seq<char> {
    let opening = if declaration.0.len() == 0 {
        " xmlns=\""@
    } else {
        " xmlns:"@ + declaration.0 + "=\""@
    };
    opening + escaped_attribute(declaration.1) + "\""@
}

/// How a run of namespace declarations is written.
pub open spec fn declarations_text(declarations: Seq<Pair>) -> Seq<char>
    decreases declarations.len(),
{
    if declarations.len() == 0 {
        Seq::empty()
    } else {
        declarations_text(declarations.drop_last()) + declaration_text(declarations.last())
    }
}

/// How an attribute is written.
pub open spec fn attribute_text(attribute: Pair) -> Seq<char> {
    " "@ + attribute.0 + "=\""@ + escaped_attribute(attribute.1) + "\""@
}

/// How a run of attributes is written.
pub open spec fn attributes_text(attributes: Seq<Pair>) -> Seq<char>
    decreases attributes.len(),
{
    if attributes.len() == 0 {
        Seq::empty()
    } else {
        attributes_text(attributes.drop_last()) + attribute_text(attributes.last())
    }
}

/// The declarations an element renders: those its visible use calls for, in the
/// order of their prefixes.
pub open spec fn rendered_declarations(
    element: ElementModel,
    inherited: Seq<Pair>,
    rendered: Seq<Pair>,
) -> Seq<Pair> {
    arranged(
        called_for(
            used_prefixes(element),
            declare_all(inherited, element.namespaces),
            rendered,
        ),
        by_prefix(),
    )
}

/// How a start tag is written.
pub open spec fn start_tag(
    element: ElementModel,
    inherited: Seq<Pair>,
    rendered: Seq<Pair>,
) -> Seq<char> {
    let scope = declare_all(inherited, element.namespaces);
    "<"@ + element.name + declarations_text(rendered_declarations(element, inherited, rendered))
        + attributes_text(arranged(element.attributes, by_namespace(scope))) + ">"@
}

/// How an end tag is written.
pub open spec fn end_tag(element: ElementModel) -> Seq<char> {
    "</"@ + element.name + ">"@
}

/// How an element is written, given the namespaces it inherits and those that
/// its ancestors rendered.
pub open spec fn element_text(
    element: ElementModel,
    inherited: Seq<Pair>,
    rendered: Seq<Pair>,
) -> Seq<char>
    decreases element,
{
    start_tag(element, inherited, rendered) + children_text(
        element.children,
        declare_all(inherited, element.namespaces),
        declare_all(rendered, rendered_declarations(element, inherited, rendered)),
    ) + end_tag(element)
}

/// How a run of children is written.
pub open spec fn children_text(
    nodes: Seq<NodeModel>,
    inherited: Seq<Pair>,
    rendered: Seq<Pair>,
) -> Seq<char>
    decreases nodes,
{
    if nodes.len() == 0 {
        Seq::empty()
    } else {
        children_text(nodes.drop_last(), inherited, rendered) + match nodes.last() {
            NodeModel::Element(element) => element_text(element, inherited, rendered),
            NodeModel::Text(text) => escaped_text(text),
        }
    }
}

/// The exclusive canonical form of an element, given the namespaces in scope
/// from the ancestors it is taken apart from.
pub open spec fn canonical_form(element: ElementModel, in_scope: Seq<Pair>) -> Seq<char> {
    element_text(element, in_scope, Seq::empty())
}

/// Write text, escaped, at the end of `out`.
pub fn escape_text(text: &str, out: &mut String)
    ensures
        final(out)@ == old(out)@ + escaped_text(text@),
{
    let chars = to_chars(text);
    let mut i: usize = 0;
    while i < chars.len()
        invariant
            i <= chars.len(),
            chars@ == text@,
            out@ == old(out)@ + escaped_text(text@.take(i as int)),
        decreases chars.len() - i,
    {
        let ghost before = out@;
        assert(text@.take(i + 1).drop_last() =~= text@.take(i as int));
        let c = chars[i];
        if c == '&' {
            out.append("&amp;");
        } else if c == '<' {
            out.append("&lt;");
        } else if c == '>' {
            out.append("&gt;");
        } else if c == '\r' {
            out.append("&#xD;");
        } else {
            out.push(c);
        }
        assert(out@ =~= before + text_escape(c));
        assert(before + text_escape(c) =~= old(out)@ + (escaped_text(text@.take(i as int))
            + text_escape(c)));
        i += 1;
    }
    assert(text@.take(i as int) =~= text@);
}

/// Write an attribute value, escaped, at the end of `out`.
pub fn escape_attribute(value: &str, out: &mut String)
    ensures
        final(out)@ == old(out)@ + escaped_attribute(value@),
{
    let chars = to_chars(value);
    let mut i: usize = 0;
    while i < chars.len()
        invariant
            i <= chars.len(),
            chars@ == value@,
            out@ == old(out)@ + escaped_attribute(value@.take(i as int)),
        decreases chars.len() - i,
    {
        let ghost before = out@;
        assert(value@.take(i + 1).drop_last() =~= value@.take(i as int));
        let c = chars[i];
        if c == '&' {
            out.append("&amp;");
        } else if c == '<' {
            out.append("&lt;");
        } else if c == '"' {
            out.append("&quot;");
        } else if c == '\t' {
            out.append("&#x9;");
        } else if c == '\n' {
            out.append("&#xA;");
        } else if c == '\r' {
            out.append("&#xD;");
        } else {
            out.push(c);
        }
        assert(out@ =~= before + attribute_escape(c));
        assert(before + attribute_escape(c) =~= old(out)@ + (escaped_attribute(
            value@.take(i as int),
        ) + attribute_escape(c)));
        i += 1;
    }
    assert(value@.take(i as int) =~= value@);
}

/// A scope with one more declaration in it.
fn declared(scope: &Vec<(String, String)>, prefix: &String, uri: &String) -> (r: Vec<
    (String, String),
>)
    ensures
        pairs_view(r@) == declare(pairs_view(scope@), (prefix@, uri@)),
{
    let ghost pairs = pairs_view(scope@);
    let ghost kept = |known: Pair| known.0 != prefix@;
    let mut out: Vec<(String, String)> = Vec::new();
    let mut i: usize = 0;
    assert(pairs_view(out@) =~= pairs.take(0).filter(kept)) by {
        reveal(Seq::filter);
    }
    while i < scope.len()
        invariant
            i <= scope.len(),
            pairs == pairs_view(scope@),
            kept == (|known: Pair| known.0 != prefix@),
            pairs_view(out@) == pairs.take(i as int).filter(kept),
        decreases scope.len() - i,
    {
        let ghost before = pairs_view(out@);
        proof {
            reveal(Seq::filter);
            assert(pairs.take(i + 1).drop_last() =~= pairs.take(i as int));
        }
        if !same(scope[i].0.as_str(), prefix.as_str()) {
            out.push((scope[i].0.clone(), scope[i].1.clone()));
            assert(pairs_view(out@) =~= before.push(pairs[i as int]));
        }
        i += 1;
    }
    assert(pairs.take(i as int) =~= pairs);
    let ghost before = pairs_view(out@);
    out.push((prefix.clone(), uri.clone()));
    assert(pairs_view(out@) =~= before.push((prefix@, uri@)));
    out
}

/// The namespaces in scope where `declarations` are made over `inherited`.
pub fn scope_with(
    inherited: &[(String, String)],
    declarations: &Vec<(String, String)>,
) -> (r: Vec<(String, String)>)
    ensures
        pairs_view(r@) == declare_all(pairs_view(inherited@), pairs_view(declarations@)),
{
    let ghost pairs = pairs_view(declarations@);
    let mut scope = copy_pairs(inherited);
    let mut i: usize = 0;
    while i < declarations.len()
        invariant
            i <= declarations.len(),
            pairs == pairs_view(declarations@),
            pairs_view(scope@) == declare_all(pairs_view(inherited@), pairs.take(i as int)),
        decreases declarations.len() - i,
    {
        assert(pairs.take(i + 1).drop_last() =~= pairs.take(i as int));
        scope = declared(&scope, &declarations[i].0, &declarations[i].1);
        i += 1;
    }
    assert(pairs.take(i as int) =~= pairs);
    scope
}

/// The namespace a prefix stands for in a scope.
fn resolve_prefix<'a>(scope: &'a [(String, String)], prefix: &str) -> (r: Option<&'a String>)
    ensures
        match r {
            Some(uri) => namespace_of(pairs_view(scope@), prefix@) == Some(uri@),
            None => namespace_of(pairs_view(scope@), prefix@) is None,
        },
{
    let ghost pairs = pairs_view(scope@);
    let mut i: usize = scope.len();
    assert(pairs.take(i as int) =~= pairs);
    while i > 0
        invariant
            i <= scope.len(),
            pairs == pairs_view(scope@),
            namespace_of(pairs.take(i as int), prefix@) == namespace_of(pairs, prefix@),
        decreases i,
    {
        assert(pairs.take(i as int).drop_last() =~= pairs.take(i - 1));
        if same(scope[i - 1].0.as_str(), prefix) {
            return Some(&scope[i - 1].1);
        }
        i -= 1;
    }
    None
}

/// The prefixes an element visibly uses.
fn visibly_used(element: &Element) -> (r: Vec<String>)
    ensures
        strings_view(r@) == used_prefixes(element@),
{
    let ghost pairs = element@.attributes;
    let mut used: Vec<String> = Vec::new();
    used.push(element.prefix().to_owned());
    let mut i: usize = 0;
    assert(strings_view(used@) =~= seq![prefix_of(element@.name)] + attribute_prefixes(
        pairs.take(0),
    ));
    while i < element.attributes.len()
        invariant
            i <= element.attributes.len(),
            pairs == pairs_view(element.attributes@),
            strings_view(used@) == seq![prefix_of(element@.name)] + attribute_prefixes(
                pairs.take(i as int),
            ),
        decreases element.attributes.len() - i,
    {
        let ghost before = strings_view(used@);
        assert(pairs.take(i + 1).drop_last() =~= pairs.take(i as int));
        if let Some((prefix, _)) = split_str(element.attributes[i].0.as_str(), ':') {
            used.push(prefix.to_owned());
            assert(strings_view(used@) =~= before.push(prefix@));
            assert(strings_view(used@) =~= seq![prefix_of(element@.name)] + attribute_prefixes(
                pairs.take(i as int),
            ).push(prefix@));
        }
        i += 1;
    }
    assert(pairs.take(i as int) =~= pairs);
    used
}

/// Whether the pair stands in the list.
fn holds(pairs: &[(String, String)], prefix: &str, uri: &str) -> (r: bool)
    ensures
        r == pairs_view(pairs@).contains((prefix@, uri@)),
{
    let ghost all = pairs_view(pairs@);
    let mut i: usize = 0;
    while i < pairs.len()
        invariant
            i <= pairs.len(),
            all == pairs_view(pairs@),
            forall|j: int| 0 <= j < i ==> all[j] != (prefix@, uri@),
        decreases pairs.len() - i,
    {
        if same(pairs[i].0.as_str(), prefix) && same(pairs[i].1.as_str(), uri) {
            assert(all[i as int] == (prefix@, uri@));
            return true;
        }
        i += 1;
    }
    false
}

/// Whether one of the pairs has this name.
fn has_name(pairs: &Vec<(String, String)>, name: &str) -> (r: bool)
    ensures
        r == names(pairs_view(pairs@), name@),
{
    let ghost all = pairs_view(pairs@);
    let mut i: usize = 0;
    while i < pairs.len()
        invariant
            i <= pairs.len(),
            all == pairs_view(pairs@),
            forall|j: int| 0 <= j < i ==> (#[trigger] all[j]).0 != name@,
        decreases pairs.len() - i,
    {
        if same(pairs[i].0.as_str(), name) {
            assert(all[i as int].0 == name@);
            return true;
        }
        i += 1;
    }
    false
}

/// The declaration that the use of a prefix calls for.
fn to_declare_for(
    prefix: &str,
    scope: &Vec<(String, String)>,
    rendered: &[(String, String)],
) -> (r: Option<(String, String)>)
    ensures
        match r {
            Some((own, uri)) => called_for_by(
                prefix@,
                pairs_view(scope@),
                pairs_view(rendered@),
            ) == Some((own@, uri@)) && own@ == prefix@,
            None => called_for_by(prefix@, pairs_view(scope@), pairs_view(rendered@)) is None,
        },
{
    let standing = resolve_prefix(scope.as_slice(), prefix);
    let none_stands = match standing {
        Some(uri) => uri.as_str().is_empty(),
        None => true,
    };
    if prefix.is_empty() && none_stands {
        assert(prefix@ =~= Seq::empty());
        let shown = match resolve_prefix(rendered, prefix) {
            Some(uri) => !uri.as_str().is_empty(),
            None => false,
        };
        return if shown {
            Some((prefix.to_owned(), String::new()))
        } else {
            None
        };
    }
    match standing {
        Some(uri) => if holds(rendered, prefix, uri.as_str()) {
            None
        } else {
            Some((prefix.to_owned(), uri.clone()))
        },
        None => None,
    }
}

/// The declarations that the use of these prefixes calls for.
fn to_declare(
    used: &Vec<String>,
    scope: &Vec<(String, String)>,
    rendered: &[(String, String)],
) -> (r: Vec<(String, String)>)
    ensures
        pairs_view(r@) == called_for(
            strings_view(used@),
            pairs_view(scope@),
            pairs_view(rendered@),
        ),
{
    let ghost all = strings_view(used@);
    let mut emit: Vec<(String, String)> = Vec::new();
    let mut i: usize = 0;
    assert(pairs_view(emit@) =~= Seq::empty());
    while i < used.len()
        invariant
            i <= used.len(),
            all == strings_view(used@),
            pairs_view(emit@) == called_for(
                all.take(i as int),
                pairs_view(scope@),
                pairs_view(rendered@),
            ),
        decreases used.len() - i,
    {
        let ghost before = pairs_view(emit@);
        assert(all.take(i + 1).drop_last() =~= all.take(i as int));
        let prefix = used[i].as_str();
        if let Some((own, uri)) = to_declare_for(prefix, scope, rendered) {
            if !has_name(&emit, prefix) {
                emit.push((own, uri));
                assert(pairs_view(emit@) =~= before.push((own@, uri@)));
            }
        }
        i += 1;
    }
    assert(all.take(i as int) =~= all);
    emit
}

/// Whether one string stands at or before another.
fn ordered(a: &str, b: &str) -> (r: bool)
    ensures
        r == at_most(a@, b@),
{
    let left = to_chars(a);
    let right = to_chars(b);
    let mut i: usize = 0;
    assert(left@.skip(0) =~= a@);
    assert(right@.skip(0) =~= b@);
    while i < left.len()
        invariant
            i <= left.len(),
            i <= right.len(),
            at_most(left@.skip(i as int), right@.skip(i as int)) == at_most(a@, b@),
        decreases left.len() - i,
    {
        if i == right.len() {
            return false;
        }
        if left[i] != right[i] {
            return left[i] < right[i];
        }
        assert(left@.skip(i as int).drop_first() =~= left@.skip(i + 1));
        assert(right@.skip(i as int).drop_first() =~= right@.skip(i + 1));
        i += 1;
    }
    true
}

/// Whether one key stands at or before another.
fn keys_ordered(a: &(String, String), b: &(String, String)) -> (r: bool)
    ensures
        r == key_at_most((a.0@, a.1@), (b.0@, b.1@)),
{
    if !same(a.0.as_str(), b.0.as_str()) {
        ordered(a.0.as_str(), b.0.as_str())
    } else {
        ordered(a.1.as_str(), b.1.as_str())
    }
}

/// The exc-c14n sort key: namespace URI then local name.
fn sort_key(name: &str, scope: &Vec<(String, String)>) -> (r: (String, String))
    ensures
        (r.0@, r.1@) == attribute_key(name@, pairs_view(scope@)),
{
    match split_str(name, ':') {
        Some((prefix, local)) => match resolve_prefix(scope.as_slice(), prefix) {
            Some(uri) => (uri.clone(), local.to_owned()),
            None => if same(prefix, "xml") {
                (XML_NAMESPACE.to_owned(), local.to_owned())
            } else {
                (String::new(), local.to_owned())
            },
        },
        None => (String::new(), name.to_owned()),
    }
}

/// A pair is placed before exactly those pairs whose keys come after its own.
proof fn lemma_placed(sorted: Seq<Pair>, pair: Pair, key: spec_fn(Pair) -> Pair, at: int)
    requires
        0 <= at <= sorted.len(),
        at > 0 ==> key_at_most(key(sorted[at - 1]), key(pair)),
        forall|i: int|
            at <= i < sorted.len() ==> !key_at_most(key(#[trigger] sorted[i]), key(pair)),
    ensures
        placed(sorted, pair, key) == sorted.insert(at, pair),
    decreases sorted.len(),
{
    if at < sorted.len() {
        assert(!key_at_most(key(sorted[sorted.len() - 1]), key(pair)));
        lemma_placed(sorted.drop_last(), pair, key, at);
        assert(sorted.drop_last().insert(at, pair).push(sorted.last()) =~= sorted.insert(at, pair));
    } else {
        assert(sorted.push(pair) =~= sorted.insert(at, pair));
    }
}

/// The pairs in the order of the keys given with them.
fn arrange(
    pairs: &Vec<(String, String)>,
    keys: &Vec<(String, String)>,
    Ghost(key): Ghost<spec_fn(Pair) -> Pair>,
) -> (r: Vec<(String, String)>)
    requires
        pairs.len() == keys.len(),
        forall|i: int|
            0 <= i < keys.len() ==> (#[trigger] pairs_view(keys@)[i]) == key(pairs_view(pairs@)[i]),
    ensures
        pairs_view(r@) == arranged(pairs_view(pairs@), key),
{
    let ghost all = pairs_view(pairs@);
    let mut out: Vec<(String, String)> = Vec::new();
    let mut out_keys: Vec<(String, String)> = Vec::new();
    let mut i: usize = 0;
    assert(pairs_view(out@) =~= Seq::empty());
    while i < pairs.len()
        invariant
            i <= pairs.len(),
            pairs.len() == keys.len(),
            forall|j: int|
                0 <= j < keys.len() ==> (#[trigger] pairs_view(keys@)[j]) == key(
                    pairs_view(pairs@)[j],
                ),
            all == pairs_view(pairs@),
            out.len() == out_keys.len(),
            pairs_view(out@) == arranged(all.take(i as int), key),
            forall|j: int|
                0 <= j < out.len() ==> (#[trigger] pairs_view(out_keys@)[j]) == key(
                    pairs_view(out@)[j],
                ),
        decreases pairs.len() - i,
    {
        let ghost sorted = pairs_view(out@);
        let ghost sorted_keys = pairs_view(out_keys@);
        let ghost pair = all[i as int];
        assert(pairs_view(keys@)[i as int] == key(pair));
        let mut at: usize = out.len();
        while at > 0 && !keys_ordered(&out_keys[at - 1], &keys[i])
            invariant
                i < keys.len(),
                at <= out.len(),
                out.len() == out_keys.len(),
                sorted == pairs_view(out@),
                sorted_keys == pairs_view(out_keys@),
                pairs_view(keys@)[i as int] == key(pair),
                forall|j: int|
                    0 <= j < out.len() ==> (#[trigger] sorted_keys[j]) == key(sorted[j]),
                forall|j: int|
                    at <= j < sorted.len() ==> !key_at_most(key(#[trigger] sorted[j]), key(pair)),
            decreases at,
        {
            assert(sorted_keys[at - 1] == key(sorted[at - 1]));
            at -= 1;
        }
        proof {
            if at > 0 {
                assert(sorted_keys[at - 1] == key(sorted[at - 1]));
            }
            lemma_placed(sorted, pair, key, at as int);
            assert(all.take(i + 1).drop_last() =~= all.take(i as int));
        }
        out.insert(at, (pairs[i].0.clone(), pairs[i].1.clone()));
        out_keys.insert(at, (keys[i].0.clone(), keys[i].1.clone()));
        assert(pairs_view(out@) =~= sorted.insert(at as int, pair));
        assert(pairs_view(out_keys@) =~= sorted_keys.insert(at as int, key(pair)));
        assert forall|j: int| 0 <= j < out.len() implies (#[trigger] pairs_view(out_keys@)[j])
            == key(pairs_view(out@)[j]) by {
            if j < at {
                assert(sorted_keys[j] == key(sorted[j]));
            } else if j > at {
                assert(sorted_keys[j - 1] == key(sorted[j - 1]));
            }
        }
        i += 1;
    }
    assert(all.take(i as int) =~= all);
    out
}

impl Element {
    /// Exclusive canonical form, given the namespaces in scope from ancestors
    /// this element is being canonicalized apart from (empty for a whole
    /// document).
    #[must_use]
    pub fn canonical(&self, in_scope: &[(String, String)]) -> (r: String)
        ensures
            r@ == canonical_form(self@, pairs_view(in_scope@)),
    {
        let mut out = String::new();
        let rendered: Vec<(String, String)> = Vec::new();
        self.render(in_scope, rendered.as_slice(), &mut out);
        assert(pairs_view(rendered@) =~= Seq::empty());
        assert(out@ =~= canonical_form(self@, pairs_view(in_scope@)));
        out
    }

    /// The declarations this element renders in a scope, in order.
    fn declarations(
        &self,
        scope: &Vec<(String, String)>,
        rendered: &[(String, String)],
    ) -> (r: Vec<(String, String)>)
        ensures
            pairs_view(r@) == arranged(
                called_for(used_prefixes(self@), pairs_view(scope@), pairs_view(rendered@)),
                by_prefix(),
            ),
    {
        let used = visibly_used(self);
        let emit = to_declare(&used, scope, rendered);
        let mut keys: Vec<(String, String)> = Vec::new();
        let mut i: usize = 0;
        while i < emit.len()
            invariant
                i <= emit.len(),
                keys.len() == i,
                forall|j: int|
                    0 <= j < i ==> (#[trigger] pairs_view(keys@)[j]) == by_prefix()(
                        pairs_view(emit@)[j],
                    ),
            decreases emit.len() - i,
        {
            let ghost before = pairs_view(keys@);
            keys.push((emit[i].0.clone(), String::new()));
            assert(pairs_view(keys@) =~= before.push(by_prefix()(pairs_view(emit@)[i as int])));
            i += 1;
        }
        arrange(&emit, &keys, Ghost(by_prefix()))
    }

    /// This element's attributes, in order.
    fn ordered_attributes(&self, scope: &Vec<(String, String)>) -> (r: Vec<(String, String)>)
        ensures
            pairs_view(r@) == arranged(self@.attributes, by_namespace(pairs_view(scope@))),
    {
        let ghost key = by_namespace(pairs_view(scope@));
        let mut keys: Vec<(String, String)> = Vec::new();
        let mut i: usize = 0;
        while i < self.attributes.len()
            invariant
                i <= self.attributes.len(),
                keys.len() == i,
                key == by_namespace(pairs_view(scope@)),
                forall|j: int|
                    0 <= j < i ==> (#[trigger] pairs_view(keys@)[j]) == key(
                        pairs_view(self.attributes@)[j],
                    ),
            decreases self.attributes.len() - i,
        {
            let ghost before = pairs_view(keys@);
            keys.push(sort_key(self.attributes[i].0.as_str(), scope));
            assert(pairs_view(keys@) =~= before.push(key(pairs_view(self.attributes@)[i as int])));
            i += 1;
        }
        arrange(&self.attributes, &keys, Ghost(key))
    }

    /// Write this element at the end of `out`. What was there stays, and has no
    /// influence on what is written; where nothing was rendered, that is the
    /// exclusive canonical form.
    pub fn render(
        &self,
        inherited: &[(String, String)],
        rendered: &[(String, String)],
        out: &mut String,
    )
        ensures
            final(out)@ == old(out)@ + element_text(
                self@,
                pairs_view(inherited@),
                pairs_view(rendered@),
            ),
            rendered@.len() == 0 ==> final(out)@ == old(out)@ + canonical_form(
                self@,
                pairs_view(inherited@),
            ),
        decreases self,
    {
        let scope = scope_with(inherited, &self.namespaces);
        let emit = self.declarations(&scope, rendered);
        let ghost declarations = pairs_view(emit@);
        let ghost start = old(out)@ + "<"@ + self@.name;
        out.append("<");
        out.append(self.name.as_str());
        let mut i: usize = 0;
        assert(out@ =~= start + declarations_text(declarations.take(0)));
        while i < emit.len()
            invariant
                i <= emit.len(),
                declarations == pairs_view(emit@),
                out@ == start + declarations_text(declarations.take(i as int)),
            decreases emit.len() - i,
        {
            assert(declarations.take(i + 1).drop_last() =~= declarations.take(i as int));
            let ghost before = out@;
            if emit[i].0.as_str().is_empty() {
                out.append(" xmlns=\"");
            } else {
                out.append(" xmlns:");
                out.append(emit[i].0.as_str());
                out.append("=\"");
            }
            escape_attribute(emit[i].1.as_str(), out);
            out.append("\"");
            assert(out@ =~= before + declaration_text(declarations[i as int]));
            assert(out@ =~= start + (declarations_text(declarations.take(i as int))
                + declaration_text(declarations[i as int])));
            i += 1;
        }
        assert(declarations.take(i as int) =~= declarations);
        let ordered = self.ordered_attributes(&scope);
        let ghost attributes = pairs_view(ordered@);
        let ghost opened = start + declarations_text(declarations);
        i = 0;
        assert(out@ =~= opened + attributes_text(attributes.take(0)));
        while i < ordered.len()
            invariant
                i <= ordered.len(),
                attributes == pairs_view(ordered@),
                out@ == opened + attributes_text(attributes.take(i as int)),
            decreases ordered.len() - i,
        {
            assert(attributes.take(i + 1).drop_last() =~= attributes.take(i as int));
            let ghost before = out@;
            out.append(" ");
            out.append(ordered[i].0.as_str());
            out.append("=\"");
            escape_attribute(ordered[i].1.as_str(), out);
            out.append("\"");
            assert(out@ =~= before + attribute_text(attributes[i as int]));
            assert(out@ =~= opened + (attributes_text(attributes.take(i as int)) + attribute_text(
                attributes[i as int],
            )));
            i += 1;
        }
        assert(attributes.take(i as int) =~= attributes);
        out.append(">");
        let ghost inner = old(out)@ + start_tag(
            self@,
            pairs_view(inherited@),
            pairs_view(rendered@),
        );
        assert(out@ =~= inner);

        let child_rendered = scope_with(rendered, &emit);
        let ghost nodes = self@.children;
        let ghost in_scope = pairs_view(scope@);
        let ghost shown = pairs_view(child_rendered@);
        i = 0;
        assert(out@ =~= inner + children_text(nodes.take(0), in_scope, shown));
        while i < self.children.len()
            invariant
                i <= self.children.len(),
                nodes == nodes_view(self.children@),
                in_scope == pairs_view(scope@),
                shown == pairs_view(child_rendered@),
                out@ == inner + children_text(nodes.take(i as int), in_scope, shown),
            decreases self.children.len() - i,
        {
            assert(nodes.take(i + 1).drop_last() =~= nodes.take(i as int));
            let ghost before = out@;
            match &self.children[i] {
                Node::Element(element) => element.render(
                    scope.as_slice(),
                    child_rendered.as_slice(),
                    out,
                ),
                Node::Text(text) => escape_text(text.as_str(), out),
            }
            assert(out@ =~= inner + children_text(nodes.take(i + 1), in_scope, shown));
            i += 1;
        }
        assert(nodes.take(i as int) =~= nodes);
        out.append("</");
        out.append(self.name.as_str());
        out.append(">");
        assert(out@ =~= inner + children_text(nodes, in_scope, shown) + end_tag(self@));
        assert(out@ =~= old(out)@ + element_text(
            self@,
            pairs_view(inherited@),
            pairs_view(rendered@),
        ));
        assert(rendered@.len() == 0 ==> pairs_view(rendered@) =~= Seq::empty());
    }
}

} // verus!
