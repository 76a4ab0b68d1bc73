//! Laws of what a signature covers: which signatures are accepted, in terms of
//! the places in the document, and what is asked to be decoded.

use crate::c14n::{canonical_form, declare_all, namespace_of};
use crate::certificate::RsaKey;
use crate::error::{meets, AuthenticateError};
use crate::laws::canonical::{
    same_scope, the_last_declaration_counts, unused_namespaces_make_no_difference, uses,
};
use crate::laws::contents::{first_value, looking_up_gives_the_first};
use crate::laws::naming::{lemma_text_if_any, lemma_value, text_if_any, value_or_nothing};
use crate::laws::paths::{
    a_prefix_stands_for_its_last_declaration, bears, declares, found_is_the_first, is_first,
    one_is_counted_where_one_stands, reached, silent, stands_for,
    the_scope_is_that_of_the_ancestors,
};
use crate::laws::signing::{
    accepted_is_signed_in_profile, located_is_found, signed_in_profile, states_the_profile,
};
use crate::laws::tree::{
    child_position_bound, first_taken, found_has_the_name, named, taking_out_takes_one,
};
use crate::laws::wording::{
    lowering_changes_capitals_alone, stripped, trimming_takes_off_white_space,
};
use crate::outside::{rsa_sha256_verifies, sha256};
use crate::signature::{
    algorithm_of, answers, bytes_view, canonical_texts, check_methods, check_reference, decide,
    digest_text, first_unknown, is_signature, judge, located, methods_verdict, profile_verdict,
    reference_verdict, signature_of, signature_verdict, transforms_of, value_text, verify,
    without_signature,
};
use crate::text::{lowercase, without_white_space};
use crate::xml::{
    attribute_or_empty, child_elements, child_position, count_among, count_named, first_named,
    local_of, lookup, text_of, with_local, without_first, without_first_below, Element,
    ElementModel, NodeModel, Pair,
};
use vstd::prelude::*;
use vstd::utf8::encode_utf8;

verus! {

/// Whether a text is a word but for capital letters of ASCII.
pub open spec fn same_but_for_capitals(text: Seq<char>, word: Seq<char>) -> bool {
    text.len() == word.len() && forall|i: int|
        0 <= i < text.len() ==> (#[trigger] text[i]) as int + (if 65 <= text[i] as int <= 90 {
            32int
        } else {
            0int
        }) == word[i] as int
}

/// Whether the first element of a local name in another states this algorithm.
pub open spec fn states(element: ElementModel, local: Seq<char>, algorithm: Seq<char>) -> bool {
    exists|path: Seq<int>, value: Seq<char>|
        #![trigger is_first(element, path, local), same_but_for_capitals(value, algorithm)]
        is_first(element, path, local) && value_or_nothing(
            reached(element, path)->Some_0.attributes,
            "Algorithm"@,
            value,
        ) && same_but_for_capitals(value, algorithm)
}

/// The algorithm stated is the one read.
proof fn lemma_states(element: ElementModel, local: Seq<char>, algorithm: Seq<char>)
    requires
        algorithm.len() > 0,
    ensures
        states(element, local, algorithm) <==> algorithm_of(element, local) == algorithm,
{
    found_is_the_first(element, local);
    if let Some(method) = first_named(element, local) {
        let value = attribute_or_empty(method, "Algorithm"@);
        looking_up_gives_the_first(method.attributes, "Algorithm"@);
        lowering_changes_capitals_alone(value);
        assert forall|other: Seq<char>| #[trigger]
            value_or_nothing(method.attributes, "Algorithm"@, other) implies other == value by {
            if other.len() == 0 {
                assert(other =~= Seq::empty());
            }
            if first_value(method.attributes, "Algorithm"@, other) {
                assert(lookup(method.attributes, "Algorithm"@) == Some(other));
            }
        }
        assert(value_or_nothing(method.attributes, "Algorithm"@, value));
        let path = choose|path: Seq<int>| #[trigger] is_first(element, path, local);
        assert(bears(element, path, local));
        if lowercase(value) == algorithm {
            assert forall|i: int| 0 <= i < value.len() implies (#[trigger] value[i]) as int + (
            if 65 <= value[i] as int <= 90 {
                32int
            } else {
                0int
            }) == algorithm[i] as int by {
                assert(lowercase(value)[i] == algorithm[i]);
            }
            assert(same_but_for_capitals(value, algorithm));
        }
        if states(element, local, algorithm) {
            let (at, other) = choose|at: Seq<int>, other: Seq<char>|
                #![trigger is_first(element, at, local), same_but_for_capitals(other, algorithm)]
                is_first(element, at, local) && value_or_nothing(
                    reached(element, at)->Some_0.attributes,
                    "Algorithm"@,
                    other,
                ) && same_but_for_capitals(other, algorithm);
            assert(other == value);
            assert forall|i: int| 0 <= i < value.len() implies lowercase(value)[i]
                == #[trigger] algorithm[i] by {
                assert(value[i] as int >= 0);
                assert(lowercase(value)[i] as int == algorithm[i] as int);
            }
            assert(lowercase(value) =~= algorithm);
        }
    } else {
        assert forall|path: Seq<int>| !#[trigger] is_first(element, path, local) by {
            assert(!bears(element, path, local));
        }
    }
}

/// The methods are accepted exactly where the `SignedInfo` states exclusive
/// canonicalization, RSA with SHA-256, and SHA-256; the first that it does not
/// state is the one refused.
pub proof fn the_methods_are_those_of_the_profile(
    signed_info: &Element,
    r: Result<(), AuthenticateError>,
)
    requires
        call_ensures(check_methods, (signed_info,), r),
    ensures
        ({
            let canonical = states(
                signed_info@,
                "CanonicalizationMethod"@,
                "http://www.w3.org/2001/10/xml-exc-c14n#"@,
            );
            let signing = states(
                signed_info@,
                "SignatureMethod"@,
                "http://www.w3.org/2001/04/xmldsig-more#rsa-sha256"@,
            );
            let digesting = states(
                signed_info@,
                "DigestMethod"@,
                "http://www.w3.org/2001/04/xmlenc#sha256"@,
            );
            &&& r is Ok <==> canonical && signing && digesting
            &&& r matches Err(refusal) ==> refusal.message@ == if !canonical {
                "the SignedInfo is not canonicalized with exclusive c14n, which is all this gate reads"@
            } else if !signing {
                "the signature method is not RSA-SHA256, which is all this gate verifies"@
            } else {
                "the digest method is not SHA-256, which is all this gate verifies"@
            }
        }),
{
    lemma_methods(signed_info@);
}

/// The three algorithms stated are those compared.
proof fn lemma_methods(signed_info: ElementModel)
    ensures
        states(
            signed_info,
            "CanonicalizationMethod"@,
            "http://www.w3.org/2001/10/xml-exc-c14n#"@,
        ) <==> algorithm_of(signed_info, "CanonicalizationMethod"@)
            == "http://www.w3.org/2001/10/xml-exc-c14n#"@,
        states(
            signed_info,
            "SignatureMethod"@,
            "http://www.w3.org/2001/04/xmldsig-more#rsa-sha256"@,
        ) <==> algorithm_of(signed_info, "SignatureMethod"@)
            == "http://www.w3.org/2001/04/xmldsig-more#rsa-sha256"@,
        states(signed_info, "DigestMethod"@, "http://www.w3.org/2001/04/xmlenc#sha256"@)
            <==> algorithm_of(signed_info, "DigestMethod"@)
            == "http://www.w3.org/2001/04/xmlenc#sha256"@,
{
    reveal_strlit("http://www.w3.org/2001/10/xml-exc-c14n#");
    reveal_strlit("http://www.w3.org/2001/04/xmldsig-more#rsa-sha256");
    reveal_strlit("http://www.w3.org/2001/04/xmlenc#sha256");
    lemma_states(
        signed_info,
        "CanonicalizationMethod"@,
        "http://www.w3.org/2001/10/xml-exc-c14n#"@,
    );
    lemma_states(
        signed_info,
        "SignatureMethod"@,
        "http://www.w3.org/2001/04/xmldsig-more#rsa-sha256"@,
    );
    lemma_states(signed_info, "DigestMethod"@, "http://www.w3.org/2001/04/xmlenc#sha256"@);
}

/// Whether a reference states two transforms: enveloped-signature, then exclusive
/// canonicalization. They are the `Transform` elements among the children of its
/// first `Transforms`.
pub open spec fn transforms_stated(reference: ElementModel) -> bool {
    exists|path: Seq<int>| #[trigger] is_first(reference, path, "Transforms"@) && ({
        let stated = with_local(
            child_elements(reached(reference, path)->Some_0.children),
            "Transform"@,
        );
        &&& stated.len() == 2
        &&& first_value(
            stated[0].attributes,
            "Algorithm"@,
            "http://www.w3.org/2000/09/xmldsig#enveloped-signature"@,
        )
        &&& first_value(
            stated[1].attributes,
            "Algorithm"@,
            "http://www.w3.org/2001/10/xml-exc-c14n#"@,
        )
    })
}

/// An attribute has a value that is not empty exactly where that is its first.
proof fn lemma_stated(element: ElementModel, name: Seq<char>, value: Seq<char>)
    requires
        value.len() > 0,
    ensures
        first_value(element.attributes, name, value) <==> attribute_or_empty(element, name)
            == value,
{
    looking_up_gives_the_first(element.attributes, name);
}

/// The transforms stated are those read.
proof fn lemma_transforms(reference: ElementModel)
    ensures
        transforms_stated(reference) <==> ({
            let read = transforms_of(reference);
            read.len() == 2 && read[0] == "http://www.w3.org/2000/09/xmldsig#enveloped-signature"@
                && read[1] == "http://www.w3.org/2001/10/xml-exc-c14n#"@
        }),
{
    reveal_strlit("http://www.w3.org/2000/09/xmldsig#enveloped-signature");
    reveal_strlit("http://www.w3.org/2001/10/xml-exc-c14n#");
    found_is_the_first(reference, "Transforms"@);
    if let Some(list) = first_named(reference, "Transforms"@) {
        let path = choose|path: Seq<int>| #[trigger] is_first(reference, path, "Transforms"@);
        assert(bears(reference, path, "Transforms"@));
        let stated = with_local(child_elements(list.children), "Transform"@);
        if stated.len() == 2 {
            lemma_stated(
                stated[0],
                "Algorithm"@,
                "http://www.w3.org/2000/09/xmldsig#enveloped-signature"@,
            );
            lemma_stated(stated[1], "Algorithm"@, "http://www.w3.org/2001/10/xml-exc-c14n#"@);
        }
        assert forall|other: Seq<int>| #[trigger]
            is_first(reference, other, "Transforms"@) implies reached(reference, other) == Some(
            list,
        ) by {
        }
    } else {
        assert forall|path: Seq<int>| !#[trigger] is_first(reference, path, "Transforms"@) by {
            assert(!bears(reference, path, "Transforms"@));
        }
    }
}

/// Whether a `SignedInfo` has one `Reference` among its children, to the `#` and
/// this ID, with the two transforms.
pub open spec fn refers_to(signed_info: ElementModel, id: Seq<char>) -> bool {
    let references = with_local(child_elements(signed_info.children), "Reference"@);
    &&& references.len() == 1
    &&& first_value(references[0].attributes, "URI"@, seq!['#'] + id)
    &&& transforms_stated(references[0])
}

/// A reference is accepted exactly where it is the only one, to the assertion,
/// with the two transforms.
pub proof fn the_reference_is_to_the_assertion(
    signed_info: &Element,
    id: &str,
    r: Result<(), AuthenticateError>,
)
    requires
        call_ensures(check_reference, (signed_info, id), r),
    ensures
        r is Ok <==> refers_to(signed_info@, id@),
        with_local(child_elements(signed_info@.children), "Reference"@).len() != 1 ==> (
        r matches Err(refusal) && refusal.message@
            == "the SignedInfo does not have exactly one Reference, which this profile requires"@),
{
    lemma_reference(signed_info@, id@);
}

/// So it is with the verdict.
proof fn lemma_reference(signed_info: ElementModel, id: Seq<char>)
    ensures
        reference_verdict(signed_info, id) is Ok <==> refers_to(signed_info, id),
{
    reveal_strlit("#");
    assert("#"@ =~= seq!['#']);
    let references = with_local(child_elements(signed_info.children), "Reference"@);
    if references.len() == 1 {
        lemma_stated(references[0], "URI"@, seq!['#'] + id);
        lemma_transforms(references[0]);
        let read = transforms_of(references[0]);
        if read.len() == 2 && read[0] == "http://www.w3.org/2000/09/xmldsig#enveloped-signature"@
            && read[1] == "http://www.w3.org/2001/10/xml-exc-c14n#"@ {
            let rest = read.drop_first();
            assert(rest[0] == read[1]);
            assert(first_unknown(rest.drop_first()) is None);
            assert(first_unknown(rest) is None);
        }
    }
}

/// An element without what a path leads to.
pub open spec fn pruned(element: ElementModel, path: Seq<int>) -> ElementModel
    decreases path.len(),
{
    if path.len() == 0 {
        element
    } else if path.len() == 1 {
        ElementModel { children: element.children.remove(path[0]), ..element }
    } else {
        ElementModel {
            children: element.children.update(
                path[0],
                NodeModel::Element(
                    pruned(element.children[path[0]]->Element_0, path.drop_first()),
                ),
            ),
            ..element
        }
    }
}

/// Where nothing below an element has the name, nothing is taken out.
proof fn lemma_nothing_taken(element: ElementModel, local: Seq<char>)
    requires
        count_among(element.children, local) == 0,
        local_of(element.name) != local,
    ensures
        without_first(element, named(local)) is None,
{
    taking_out_takes_one(element, local);
    if let Some(rest) = without_first(element, named(local)) {
        let taken = first_taken(element, named(local))->Some_0;
        assert(count_named(taken, local) >= 1);
    }
}

/// Taking out the only one of a name leaves the element without what the path to
/// it leads to.
pub proof fn taking_out_the_only_one_prunes(
    element: ElementModel,
    path: Seq<int>,
    local: Seq<char>,
)
    requires
        local_of(element.name) != local,
        bears(element, path, local),
        forall|other: Seq<int>| #[trigger] bears(element, other, local) ==> other == path,
    ensures
        without_first(element, named(local)) == Some(pruned(element, path)),
    decreases path.len(),
{
    let p = named(local);
    let nodes = element.children;
    assert(path.len() > 0);
    one_is_counted_where_one_stands(element, local);
    child_position_bound(nodes, p);
    match child_position(nodes, p) {
        Some(at) => {
            let other = seq![at];
            let child = nodes[at]->Element_0;
            assert(other.drop_first().len() == 0);
            assert(reached(child, other.drop_first()) == Some(child));
            assert(p(child));
            assert(bears(element, other, local));
            assert(path == other);
        },
        None => {
            let at = path[0];
            let below = path.drop_first();
            let child = nodes[at]->Element_0;
            assert(!p(child));
            assert(bears(child, below, local));
            assert(below.len() > 0);
            assert forall|other: Seq<int>| #[trigger] bears(child, other, local) implies other
                == below by {
                let whole = seq![at] + other;
                assert(whole.drop_first() =~= other);
                assert(bears(element, whole, local));
                assert(whole.drop_first() =~= path.drop_first());
            }
            taking_out_the_only_one_prunes(child, below, local);
            assert forall|i: int| 0 <= i < at implies (#[trigger] nodes[i] matches NodeModel::Element(
                sibling,
            ) ==> without_first(sibling, p) is None) by {
                if let NodeModel::Element(sibling) = nodes[i] {
                    found_is_the_first(sibling, local);
                    found_has_the_name(sibling, local);
                    if first_named(sibling, local) is Some {
                        let there = choose|there: Seq<int>| #[trigger]
                            is_first(sibling, there, local);
                        assert(bears(sibling, there, local));
                        let whole = seq![i] + there;
                        assert(whole.drop_first() =~= there);
                        assert(bears(element, whole, local));
                        assert(whole[0] == i);
                    }
                    assert(!p(sibling));
                    lemma_nothing_taken(sibling, local);
                }
            }
            lemma_taken_below(nodes, at, p);
        },
    }
}

/// What is taken out below children is taken out of the first that has it.
proof fn lemma_taken_below(nodes: Seq<NodeModel>, at: int, p: spec_fn(ElementModel) -> bool)
    requires
        0 <= at < nodes.len(),
        nodes[at] matches NodeModel::Element(child) && without_first(child, p) is Some,
        forall|i: int| 0 <= i < at ==> (#[trigger] nodes[i] matches NodeModel::Element(sibling)
            ==> without_first(sibling, p) is None),
    ensures
        without_first_below(nodes, p) == Some(
            nodes.update(
                at,
                NodeModel::Element(without_first(nodes[at]->Element_0, p)->Some_0),
            ),
        ),
    decreases at,
{
    if at > 0 {
        let rest = nodes.drop_first();
        assert(nodes[0] is Element ==> without_first(nodes[0]->Element_0, p) is None);
        assert forall|i: int| 0 <= i < at - 1 implies (#[trigger] rest[i] matches NodeModel::Element(
            sibling,
        ) ==> without_first(sibling, p) is None) by {
            assert(rest[i] == nodes[i + 1]);
        }
        lemma_taken_below(rest, at - 1, p);
        let left = NodeModel::Element(without_first(nodes[at]->Element_0, p)->Some_0);
        assert(seq![nodes[0]] + rest.update(at - 1, left) =~= nodes.update(at, left));
    }
}

/// Whether these are the namespaces in scope where a path leads, given those that
/// are in scope outside.
pub open spec fn scope_at(
    element: ElementModel,
    path: Seq<int>,
    outside: Seq<Pair>,
    scope: Seq<Pair>,
) -> bool {
    forall|prefix: Seq<char>| #[trigger]
        stands_for(
            element,
            path,
            namespace_of(outside, prefix),
            prefix,
            namespace_of(scope, prefix),
        )
}

/// Whether these are the namespaces in scope inside an element, given those in
/// scope where it stands.
pub open spec fn scope_inside(
    element: ElementModel,
    outside: Seq<Pair>,
    scope: Seq<Pair>,
) -> bool {
    forall|prefix: Seq<char>|
        match #[trigger] namespace_of(scope, prefix) {
            Some(uri) => declares(element.namespaces, prefix, uri) || (silent(
                element.namespaces,
                prefix,
            ) && namespace_of(outside, prefix) == Some(uri)),
            None => silent(element.namespaces, prefix) && namespace_of(outside, prefix) is None,
        }
}

/// A prefix stands for one thing where a path leads.
proof fn lemma_one_meaning(
    element: ElementModel,
    path: Seq<int>,
    outside: Option<Seq<char>>,
    prefix: Seq<char>,
    a: Option<Seq<char>>,
    b: Option<Seq<char>>,
)
    requires
        stands_for(element, path, outside, prefix, a),
        stands_for(element, path, outside, prefix, b),
    ensures
        a == b,
{
    let innermost = |k: int, uri: Seq<char>|
        0 <= k < path.len() && declares(
            reached(element, path.take(k))->Some_0.namespaces,
            prefix,
            uri,
        ) && forall|l: int|
            k < l < path.len() ==> silent(
                (#[trigger] reached(element, path.take(l)))->Some_0.namespaces,
                prefix,
            );
    let none = forall|k: int|
        0 <= k < path.len() ==> silent(
            (#[trigger] reached(element, path.take(k)))->Some_0.namespaces,
            prefix,
        );
    assert forall|k: int, uri: Seq<char>| #[trigger] innermost(k, uri) implies !silent(
        reached(element, path.take(k))->Some_0.namespaces,
        prefix,
    ) by {
        lemma_not_silent(reached(element, path.take(k))->Some_0.namespaces, prefix, uri);
    }
    if a is Some && !(a == outside && none) {
        let k = choose|k: int|
            0 <= k < path.len() && declares(
                (#[trigger] reached(element, path.take(k)))->Some_0.namespaces,
                prefix,
                a->Some_0,
            ) && forall|l: int|
                k < l < path.len() ==> silent(
                    (#[trigger] reached(element, path.take(l)))->Some_0.namespaces,
                    prefix,
                );
        assert(innermost(k, a->Some_0));
        if b is Some && !(b == outside && none) {
            let l = choose|l: int|
                0 <= l < path.len() && declares(
                    (#[trigger] reached(element, path.take(l)))->Some_0.namespaces,
                    prefix,
                    b->Some_0,
                ) && forall|m: int|
                    l < m < path.len() ==> silent(
                        (#[trigger] reached(element, path.take(m)))->Some_0.namespaces,
                        prefix,
                    );
            assert(innermost(l, b->Some_0));
            if k < l {
                assert(silent(reached(element, path.take(l))->Some_0.namespaces, prefix));
            } else if l < k {
                assert(silent(reached(element, path.take(k))->Some_0.namespaces, prefix));
            }
            a_prefix_stands_for_its_last_declaration(
                reached(element, path.take(k))->Some_0.namespaces,
                prefix,
            );
        } else {
            assert(silent(reached(element, path.take(k))->Some_0.namespaces, prefix));
        }
    } else if b is Some && !(b == outside && none) {
        let l = choose|l: int|
            0 <= l < path.len() && declares(
                (#[trigger] reached(element, path.take(l)))->Some_0.namespaces,
                prefix,
                b->Some_0,
            ) && forall|m: int|
                l < m < path.len() ==> silent(
                    (#[trigger] reached(element, path.take(m)))->Some_0.namespaces,
                    prefix,
                );
        assert(innermost(l, b->Some_0));
        assert(silent(reached(element, path.take(l))->Some_0.namespaces, prefix));
    }
}

/// What declares a prefix is not silent about it.
proof fn lemma_not_silent(pairs: Seq<Pair>, prefix: Seq<char>, uri: Seq<char>)
    requires
        declares(pairs, prefix, uri),
    ensures
        !silent(pairs, prefix),
{
    let i = choose|i: int| 0 <= i < pairs.len() && #[trigger] pairs[i] == (prefix, uri);
    assert(pairs[i].0 == prefix);
}

/// In scopes that agree, an element has the same form.
proof fn lemma_same_form(element: ElementModel, one: Seq<Pair>, other: Seq<Pair>)
    requires
        same_scope(one, other),
    ensures
        canonical_form(element, one) == canonical_form(element, other),
{
    assert forall|prefix: Seq<char>| #[trigger] uses(element, prefix) implies namespace_of(
        one,
        prefix,
    ) == namespace_of(other, prefix) by {
    }
    unused_namespaces_make_no_difference(element, one, other, Seq::empty());
}

/// The scope with an element's declarations made in it is that inside it.
proof fn lemma_inside(element: ElementModel, outside: Seq<Pair>, scope: Seq<Pair>)
    ensures
        scope_inside(element, outside, declare_all(outside, element.namespaces)),
        scope_inside(element, outside, scope) ==> same_scope(
            scope,
            declare_all(outside, element.namespaces),
        ),
{
    let made = declare_all(outside, element.namespaces);
    assert forall|prefix: Seq<char>|
        match #[trigger] namespace_of(made, prefix) {
            Some(uri) => declares(element.namespaces, prefix, uri) || (silent(
                element.namespaces,
                prefix,
            ) && namespace_of(outside, prefix) == Some(uri)),
            None => silent(element.namespaces, prefix) && namespace_of(outside, prefix) is None,
        } by {
        the_last_declaration_counts(outside, element.namespaces, prefix);
        a_prefix_stands_for_its_last_declaration(element.namespaces, prefix);
    }
    if scope_inside(element, outside, scope) {
        assert forall|prefix: Seq<char>| #[trigger]
            namespace_of(scope, prefix) == namespace_of(made, prefix) by {
            the_last_declaration_counts(outside, element.namespaces, prefix);
            a_prefix_stands_for_its_last_declaration(element.namespaces, prefix);
            if let Some(uri) = namespace_of(scope, prefix) {
                if declares(element.namespaces, prefix, uri) {
                    lemma_not_silent(element.namespaces, prefix, uri);
                }
            }
            if let Some(uri) = namespace_of(element.namespaces, prefix) {
                lemma_not_silent(element.namespaces, prefix, uri);
            }
        }
    }
}

/// Whether a document is signed with a key, in terms of the places in it. Its
/// first `Assertion` has an ID, and one place in it bears a `Signature`. The first
/// `SignedInfo` of that states the methods and refers to the assertion, and has a
/// `DigestValue`; the `Signature` has a `SignatureValue`. What was decoded of the
/// one is the digest of the canonical form of the assertion without that
/// `Signature`, in the scope of the assertion's ancestors. What was decoded of the
/// other the key accepts over the canonical form of the `SignedInfo`, in the
/// scope of the `Signature` and its ancestors.
pub open spec fn signed_at(
    document: ElementModel,
    key: (Seq<u8>, Seq<u8>),
    digest: Option<Seq<u8>>,
    value: Option<Seq<u8>>,
    to_assertion: Seq<int>,
    to_signature: Seq<int>,
    to_info: Seq<int>,
    outside: Seq<Pair>,
    between: Seq<Pair>,
    inside: Seq<Pair>,
) -> bool {
    let assertion = reached(document, to_assertion)->Some_0;
    let signature = reached(assertion, to_signature)->Some_0;
    let signed_info = reached(signature, to_info)->Some_0;
    &&& is_first(document, to_assertion, "Assertion"@)
    &&& bears(assertion, to_signature, "Signature"@)
    &&& forall|other: Seq<int>| #[trigger]
        bears(assertion, other, "Signature"@) ==> other == to_signature
    &&& is_first(signature, to_info, "SignedInfo"@)
    &&& exists|id: Seq<char>| #[trigger]
        first_value(assertion.attributes, "ID"@, id) && refers_to(signed_info, id)
    &&& states(
        signed_info,
        "CanonicalizationMethod"@,
        "http://www.w3.org/2001/10/xml-exc-c14n#"@,
    )
    &&& states(
        signed_info,
        "SignatureMethod"@,
        "http://www.w3.org/2001/04/xmldsig-more#rsa-sha256"@,
    )
    &&& states(signed_info, "DigestMethod"@, "http://www.w3.org/2001/04/xmlenc#sha256"@)
    &&& exists|path: Seq<int>| #[trigger] bears(signed_info, path, "DigestValue"@)
    &&& exists|path: Seq<int>| #[trigger] bears(signature, path, "SignatureValue"@)
    &&& scope_at(document, to_assertion, Seq::empty(), outside)
    &&& digest == Some(sha256(encode_utf8(canonical_form(pruned(assertion, to_signature), outside))))
    &&& scope_at(assertion, to_signature, outside, between)
    &&& scope_inside(signature, between, inside)
    &&& value matches Some(bytes) && rsa_sha256_verifies(
        key.0,
        key.1,
        encode_utf8(canonical_form(signed_info, inside)),
        bytes,
    )
}

/// Something of a name is found exactly where a path leads to one.
proof fn lemma_somewhere(element: ElementModel, local: Seq<char>)
    ensures
        first_named(element, local) is Some <==> exists|path: Seq<int>| #[trigger]
            bears(element, path, local),
{
    found_is_the_first(element, local);
    if first_named(element, local) is Some {
        let path = choose|path: Seq<int>| #[trigger] is_first(element, path, local);
        assert(bears(element, path, local));
    }
}

/// Where one place alone bears a name, that is the first.
proof fn lemma_only_is_first(element: ElementModel, path: Seq<int>, local: Seq<char>)
    requires
        bears(element, path, local),
        forall|other: Seq<int>| #[trigger] bears(element, other, local) ==> other == path,
    ensures
        is_first(element, path, local),
{
    lemma_somewhere(element, local);
    found_is_the_first(element, local);
    let first = choose|first: Seq<int>| #[trigger] is_first(element, first, local);
    assert(bears(element, first, local));
}

/// A document that is signed at some places is accepted.
proof fn lemma_signed_is_accepted(
    document: ElementModel,
    key: (Seq<u8>, Seq<u8>),
    digest: Option<Seq<u8>>,
    value: Option<Seq<u8>>,
    to_assertion: Seq<int>,
    to_signature: Seq<int>,
    to_info: Seq<int>,
    outside: Seq<Pair>,
    between: Seq<Pair>,
    inside: Seq<Pair>,
)
    requires
        signed_at(
            document,
            key,
            digest,
            value,
            to_assertion,
            to_signature,
            to_info,
            outside,
            between,
            inside,
        ),
    ensures
        signed_in_profile(document, key, digest, value),
{
    let assertion = reached(document, to_assertion)->Some_0;
    let signature = reached(assertion, to_signature)->Some_0;
    let signed_info = reached(signature, to_info)->Some_0;
    assert(bears(document, to_assertion, "Assertion"@));
    lemma_only_is_first(assertion, to_signature, "Signature"@);
    let (_, inherited) = located(document, Seq::empty(), "Assertion"@)->Some_0;
    the_scope_is_that_of_the_ancestors(
        document,
        Seq::empty(),
        "Assertion"@,
        to_assertion,
        Seq::empty(),
    );
    assert(same_scope(outside, inherited)) by {
        assert forall|prefix: Seq<char>| #[trigger]
            namespace_of(outside, prefix) == namespace_of(inherited, prefix) by {
            the_scope_is_that_of_the_ancestors(
                document,
                Seq::empty(),
                "Assertion"@,
                to_assertion,
                prefix,
            );
            assert(stands_for(
                document,
                to_assertion,
                namespace_of(Seq::empty(), prefix),
                prefix,
                namespace_of(outside, prefix),
            ));
            lemma_one_meaning(
                document,
                to_assertion,
                namespace_of(Seq::empty(), prefix),
                prefix,
                namespace_of(outside, prefix),
                namespace_of(inherited, prefix),
            );
        }
    }
    the_scope_is_that_of_the_ancestors(
        assertion,
        inherited,
        "Signature"@,
        to_signature,
        Seq::empty(),
    );
    let (_, scope) = located(assertion, inherited, "Signature"@)->Some_0;
    assert(same_scope(between, scope)) by {
        assert forall|prefix: Seq<char>| #[trigger]
            namespace_of(between, prefix) == namespace_of(scope, prefix) by {
            the_scope_is_that_of_the_ancestors(
                assertion,
                inherited,
                "Signature"@,
                to_signature,
                prefix,
            );
            assert(namespace_of(outside, prefix) == namespace_of(inherited, prefix));
            assert(stands_for(
                assertion,
                to_signature,
                namespace_of(outside, prefix),
                prefix,
                namespace_of(between, prefix),
            ));
            lemma_one_meaning(
                assertion,
                to_signature,
                namespace_of(inherited, prefix),
                prefix,
                namespace_of(between, prefix),
                namespace_of(scope, prefix),
            );
        }
    }
    let made = declare_all(scope, signature.namespaces);
    lemma_inside(signature, between, inside);
    assert(same_scope(inside, made)) by {
        assert forall|prefix: Seq<char>| #[trigger]
            namespace_of(inside, prefix) == namespace_of(made, prefix) by {
            the_last_declaration_counts(scope, signature.namespaces, prefix);
            the_last_declaration_counts(between, signature.namespaces, prefix);
            assert(namespace_of(between, prefix) == namespace_of(scope, prefix));
            assert(namespace_of(inside, prefix) == namespace_of(
                declare_all(between, signature.namespaces),
                prefix,
            ));
        }
    }
    lemma_same_form(signed_info, inside, made);
    lemma_same_form(pruned(assertion, to_signature), outside, inherited);
    lemma_outer_is_not_signature(assertion);
    taking_out_the_only_one_prunes(assertion, to_signature, "Signature"@);
    assert(is_signature() =~= named("Signature"@));
    one_is_counted_where_one_stands(assertion, "Signature"@);
    found_is_the_first(signature, "SignedInfo"@);
    assert(bears(signature, to_info, "SignedInfo"@));
    looking_up_gives_the_first(assertion.attributes, "ID"@);
    let id = choose|id: Seq<char>| #[trigger]
        first_value(assertion.attributes, "ID"@, id) && refers_to(signed_info, id);
    lemma_profile(signed_info, id);
    lemma_somewhere(signed_info, "DigestValue"@);
    lemma_somewhere(signature, "SignatureValue"@);
}

/// An assertion is no signature.
proof fn lemma_outer_is_not_signature(assertion: ElementModel)
    ensures
        local_of(assertion.name) == "Assertion"@ ==> local_of(assertion.name) != "Signature"@,
{
    reveal_strlit("Assertion");
    reveal_strlit("Signature");
    assert("Assertion"@[0] != "Signature"@[0]);
}

/// A `SignedInfo` states the profile exactly where it states the methods and
/// refers to the assertion.
proof fn lemma_profile(signed_info: ElementModel, id: Seq<char>)
    ensures
        states_the_profile(signed_info, id) <==> refers_to(signed_info, id) && states(
            signed_info,
            "CanonicalizationMethod"@,
            "http://www.w3.org/2001/10/xml-exc-c14n#"@,
        ) && states(
            signed_info,
            "SignatureMethod"@,
            "http://www.w3.org/2001/04/xmldsig-more#rsa-sha256"@,
        ) && states(signed_info, "DigestMethod"@, "http://www.w3.org/2001/04/xmlenc#sha256"@),
{
    lemma_methods(signed_info);
    reveal_strlit("#");
    assert("#"@ =~= seq!['#']);
    let references = with_local(child_elements(signed_info.children), "Reference"@);
    if references.len() == 1 {
        lemma_stated(references[0], "URI"@, seq!['#'] + id);
        lemma_transforms(references[0]);
    }
}

/// A signature is accepted exactly where the document is signed at some places.
pub proof fn a_signature_is_accepted_where_the_document_is_signed(
    document: ElementModel,
    key: (Seq<u8>, Seq<u8>),
    digest: Option<Seq<u8>>,
    value: Option<Seq<u8>>,
)
    ensures
        signature_verdict(document, key, digest, value) is Ok <==> exists|
            to_assertion: Seq<int>,
            to_signature: Seq<int>,
            to_info: Seq<int>,
            outside: Seq<Pair>,
            between: Seq<Pair>,
            inside: Seq<Pair>,
        | #[trigger]
            signed_at(
                document,
                key,
                digest,
                value,
                to_assertion,
                to_signature,
                to_info,
                outside,
                between,
                inside,
            ),
{
    accepted_is_signed_in_profile(document, key, digest, value);
    if exists|
        to_assertion: Seq<int>,
        to_signature: Seq<int>,
        to_info: Seq<int>,
        outside: Seq<Pair>,
        between: Seq<Pair>,
        inside: Seq<Pair>,
    | #[trigger]
        signed_at(
            document,
            key,
            digest,
            value,
            to_assertion,
            to_signature,
            to_info,
            outside,
            between,
            inside,
        ) {
        let (a, b, c, d, e, f) = choose|
            to_assertion: Seq<int>,
            to_signature: Seq<int>,
            to_info: Seq<int>,
            outside: Seq<Pair>,
            between: Seq<Pair>,
            inside: Seq<Pair>,
        | #[trigger]
            signed_at(
                document,
                key,
                digest,
                value,
                to_assertion,
                to_signature,
                to_info,
                outside,
                between,
                inside,
            );
        lemma_signed_is_accepted(document, key, digest, value, a, b, c, d, e, f);
    }
    if signed_in_profile(document, key, digest, value) {
        let (assertion, inherited) = located(document, Seq::empty(), "Assertion"@)->Some_0;
        let (signature, scope) = located(assertion, inherited, "Signature"@)->Some_0;
        located_is_found(document, Seq::empty(), "Assertion"@);
        located_is_found(assertion, inherited, "Signature"@);
        found_is_the_first(document, "Assertion"@);
        found_is_the_first(assertion, "Signature"@);
        found_is_the_first(signature, "SignedInfo"@);
        let signed_info = first_named(signature, "SignedInfo"@)->Some_0;
        let p = choose|path: Seq<int>| #[trigger] is_first(document, path, "Assertion"@);
        let q = choose|path: Seq<int>| #[trigger] is_first(assertion, path, "Signature"@);
        let s = choose|path: Seq<int>| #[trigger] is_first(signature, path, "SignedInfo"@);
        assert(bears(document, p, "Assertion"@));
        assert(bears(assertion, q, "Signature"@));
        assert(bears(signature, s, "SignedInfo"@));
        one_is_counted_where_one_stands(assertion, "Signature"@);
        lemma_outer_is_not_signature(assertion);
        taking_out_the_only_one_prunes(assertion, q, "Signature"@);
        assert(is_signature() =~= named("Signature"@));
        looking_up_gives_the_first(assertion.attributes, "ID"@);
        let id = lookup(assertion.attributes, "ID"@)->Some_0;
        lemma_profile(signed_info, id);
        lemma_somewhere(signed_info, "DigestValue"@);
        lemma_somewhere(signature, "SignatureValue"@);
        assert(scope_at(document, p, Seq::empty(), inherited)) by {
            assert forall|prefix: Seq<char>| #[trigger]
                stands_for(
                    document,
                    p,
                    namespace_of(Seq::empty(), prefix),
                    prefix,
                    namespace_of(inherited, prefix),
                ) by {
                the_scope_is_that_of_the_ancestors(
                    document,
                    Seq::empty(),
                    "Assertion"@,
                    p,
                    prefix,
                );
            }
        }
        assert(scope_at(assertion, q, inherited, scope)) by {
            assert forall|prefix: Seq<char>| #[trigger]
                stands_for(
                    assertion,
                    q,
                    namespace_of(inherited, prefix),
                    prefix,
                    namespace_of(scope, prefix),
                ) by {
                the_scope_is_that_of_the_ancestors(
                    assertion,
                    inherited,
                    "Signature"@,
                    q,
                    prefix,
                );
            }
        }
        let made = declare_all(scope, signature.namespaces);
        lemma_inside(signature, scope, made);
        assert(first_value(assertion.attributes, "ID"@, id));
        assert(signed_at(document, key, digest, value, p, q, s, inherited, scope, made));
    }
}

/// Judging accepts exactly where the document is signed with the key.
pub proof fn judging_accepts_where_the_document_is_signed(
    document: &Element,
    key: &RsaKey,
    digest: &Option<Vec<u8>>,
    value: &Option<Vec<u8>>,
    r: Result<(), AuthenticateError>,
)
    requires
        call_ensures(judge, (document, key, digest, value), r),
    ensures
        r is Ok <==> exists|
            to_assertion: Seq<int>,
            to_signature: Seq<int>,
            to_info: Seq<int>,
            outside: Seq<Pair>,
            between: Seq<Pair>,
            inside: Seq<Pair>,
        | #[trigger]
            signed_at(
                document@,
                (key.modulus@, key.exponent@),
                bytes_view(*digest),
                bytes_view(*value),
                to_assertion,
                to_signature,
                to_info,
                outside,
                between,
                inside,
            ),
{
    a_signature_is_accepted_where_the_document_is_signed(
        document@,
        key@,
        bytes_view(*digest),
        bytes_view(*value),
    );
}

/// Whether this is the text of the `DigestValue` to be decoded: that of the first
/// in the first `SignedInfo` of the first `Signature` of the first `Assertion`,
/// with the white space around it taken off.
pub open spec fn digest_written(document: ElementModel, text: Option<Seq<char>>) -> bool {
    exists|p: Seq<int>, q: Seq<int>, s: Seq<int>, whole: Option<Seq<char>>|
        #![trigger is_first(document, p, "Assertion"@), is_first(reached(document, p)->Some_0, q, "Signature"@), is_first(reached(reached(document, p)->Some_0, q)->Some_0, s, "SignedInfo"@), text_if_any(reached(reached(reached(document, p)->Some_0, q)->Some_0, s)->Some_0, "DigestValue"@, whole)]
        is_first(document, p, "Assertion"@) && is_first(
            reached(document, p)->Some_0,
            q,
            "Signature"@,
        ) && is_first(reached(reached(document, p)->Some_0, q)->Some_0, s, "SignedInfo"@)
            && text_if_any(
            reached(reached(reached(document, p)->Some_0, q)->Some_0, s)->Some_0,
            "DigestValue"@,
            whole,
        ) && match (whole, text) {
            (Some(whole), Some(text)) => stripped(whole, text),
            (None, None) => true,
            _ => false,
        }
}

/// Whether this is the text of the `SignatureValue` to be decoded: that of the
/// first in the first `Signature` of the first `Assertion`, with all white space
/// taken out.
pub open spec fn value_written(document: ElementModel, text: Option<Seq<char>>) -> bool {
    exists|p: Seq<int>, q: Seq<int>, whole: Option<Seq<char>>|
        #![trigger is_first(document, p, "Assertion"@), is_first(reached(document, p)->Some_0, q, "Signature"@), text_if_any(reached(reached(document, p)->Some_0, q)->Some_0, "SignatureValue"@, whole)]
        is_first(document, p, "Assertion"@) && is_first(
            reached(document, p)->Some_0,
            q,
            "Signature"@,
        ) && text_if_any(
            reached(reached(document, p)->Some_0, q)->Some_0,
            "SignatureValue"@,
            whole,
        ) && match (whole, text) {
            (Some(whole), Some(text)) => text == without_white_space(whole),
            (None, None) => true,
            _ => false,
        }
}

/// Whether a decoder was asked of this text, if there is one, and gave these
/// bytes.
pub open spec fn decoded<F: Fn(&str) -> Option<Vec<u8>>>(
    decode: F,
    text: Option<Seq<char>>,
    bytes: Option<Seq<u8>>,
) -> bool {
    match text {
        Some(text) => exists|asked: &str, answer: Option<Vec<u8>>|
            asked@ == text && #[trigger] call_ensures(decode, (asked,), answer) && match (
                answer,
                bytes,
            ) {
                (Some(answer), Some(bytes)) => answer@ == bytes,
                (None, None) => true,
                _ => false,
            },
        None => bytes is None,
    }
}

/// Where a document has a `SignedInfo` to judge, what is to be decoded is what is
/// written there.
pub proof fn what_is_decoded_is_what_is_written(document: ElementModel)
    requires
        signature_of(document) matches Some(signature) && first_named(signature, "SignedInfo"@)
            is Some,
    ensures
        digest_written(document, digest_text(document)),
        value_written(document, value_text(document)),
{
    found_is_the_first(document, "Assertion"@);
    let assertion = first_named(document, "Assertion"@)->Some_0;
    found_is_the_first(assertion, "Signature"@);
    let signature = first_named(assertion, "Signature"@)->Some_0;
    found_is_the_first(signature, "SignedInfo"@);
    let signed_info = first_named(signature, "SignedInfo"@)->Some_0;
    let p = choose|path: Seq<int>| #[trigger] is_first(document, path, "Assertion"@);
    let q = choose|path: Seq<int>| #[trigger] is_first(assertion, path, "Signature"@);
    let s = choose|path: Seq<int>| #[trigger] is_first(signature, path, "SignedInfo"@);
    assert(bears(document, p, "Assertion"@));
    assert(bears(assertion, q, "Signature"@));
    assert(bears(signature, s, "SignedInfo"@));
    let whole = match first_named(signed_info, "DigestValue"@) {
        Some(found) => Some(text_of(found.children)),
        None => None,
    };
    lemma_text_if_any(signed_info, "DigestValue"@, whole);
    if let Some(text) = whole {
        trimming_takes_off_white_space(text);
    }
    assert(is_first(reached(document, p)->Some_0, q, "Signature"@));
    assert(is_first(reached(reached(document, p)->Some_0, q)->Some_0, s, "SignedInfo"@));
    assert(text_if_any(
        reached(reached(reached(document, p)->Some_0, q)->Some_0, s)->Some_0,
        "DigestValue"@,
        whole,
    ));
    let packed = match first_named(signature, "SignatureValue"@) {
        Some(found) => Some(text_of(found.children)),
        None => None,
    };
    lemma_text_if_any(signature, "SignatureValue"@, packed);
    assert(text_if_any(
        reached(reached(document, p)->Some_0, q)->Some_0,
        "SignatureValue"@,
        packed,
    ));
}

/// Verifying asks the decoder of the two texts, and accepts exactly where the
/// document is signed with the key by what it gave.
pub proof fn verifying_decodes_what_is_written<F: Fn(&str) -> Option<Vec<u8>>>(
    document: &Element,
    key: &RsaKey,
    decode: &F,
    r: Result<(), AuthenticateError>,
)
    requires
        call_ensures(verify, (document, key, decode), r),
    ensures
        exists|digest: Option<Seq<u8>>, value: Option<Seq<u8>>|
            #[trigger] decoded(*decode, digest_text(document@), digest) && #[trigger] decoded(
                *decode,
                value_text(document@),
                value,
            ) && (r is Ok <==> exists|
                to_assertion: Seq<int>,
                to_signature: Seq<int>,
                to_info: Seq<int>,
                outside: Seq<Pair>,
                between: Seq<Pair>,
                inside: Seq<Pair>,
            | #[trigger]
                signed_at(
                    document@,
                    (key.modulus@, key.exponent@),
                    digest,
                    value,
                    to_assertion,
                    to_signature,
                    to_info,
                    outside,
                    between,
                    inside,
                )),
{
    let (digest, value) = choose|digest: Option<Seq<u8>>, value: Option<Seq<u8>>|
        answers(*decode, digest_text(document@), digest)
            && answers(*decode, value_text(document@), value) && meets(
            r,
            #[trigger] signature_verdict(document@, key@, digest, value),
        );
    a_signature_is_accepted_where_the_document_is_signed(document@, key@, digest, value);
    assert(decoded(*decode, digest_text(document@), digest));
    assert(decoded(*decode, value_text(document@), value));
}

/// Whether a document has the shape of the profile, at these places: one
/// `Signature` in its first `Assertion`, which has an ID, whose first `SignedInfo`
/// states the methods and refers to the assertion, and the two values.
pub open spec fn in_shape(
    document: ElementModel,
    to_assertion: Seq<int>,
    to_signature: Seq<int>,
    to_info: Seq<int>,
) -> bool {
    let assertion = reached(document, to_assertion)->Some_0;
    let signature = reached(assertion, to_signature)->Some_0;
    let signed_info = reached(signature, to_info)->Some_0;
    &&& is_first(document, to_assertion, "Assertion"@)
    &&& bears(assertion, to_signature, "Signature"@)
    &&& forall|other: Seq<int>| #[trigger]
        bears(assertion, other, "Signature"@) ==> other == to_signature
    &&& is_first(signature, to_info, "SignedInfo"@)
    &&& exists|id: Seq<char>| #[trigger]
        first_value(assertion.attributes, "ID"@, id) && refers_to(signed_info, id)
    &&& states(
        signed_info,
        "CanonicalizationMethod"@,
        "http://www.w3.org/2001/10/xml-exc-c14n#"@,
    )
    &&& states(
        signed_info,
        "SignatureMethod"@,
        "http://www.w3.org/2001/04/xmldsig-more#rsa-sha256"@,
    )
    &&& states(signed_info, "DigestMethod"@, "http://www.w3.org/2001/04/xmlenc#sha256"@)
    &&& exists|path: Seq<int>| #[trigger] bears(signed_info, path, "DigestValue"@)
    &&& exists|path: Seq<int>| #[trigger] bears(signature, path, "SignatureValue"@)
}

/// A `SignedInfo` states the profile exactly where its verdicts are well.
proof fn lemma_stated_verdicts(signed_info: ElementModel, id: Seq<char>)
    ensures
        states_the_profile(signed_info, id) <==> methods_verdict(signed_info) is Ok
            && reference_verdict(signed_info, id) is Ok,
{
    lemma_profile(signed_info, id);
    lemma_reference(signed_info, id);
    lemma_methods(signed_info);
}

/// A verdict on the profile is well exactly where the document is in shape, the
/// digest decoded is the one computed, and a signature was decoded that verifies.
proof fn lemma_shape(
    document: ElementModel,
    digest: Option<Seq<u8>>,
    value: Option<Seq<u8>>,
    computed: Seq<u8>,
    verifies: bool,
)
    ensures
        profile_verdict(document, digest, value, computed, verifies) is Ok <==> digest == Some(
            computed,
        ) && value is Some && verifies && exists|p: Seq<int>, q: Seq<int>, t: Seq<int>| #[trigger]
            in_shape(document, p, q, t),
{
    if profile_verdict(document, digest, value, computed, verifies) is Ok {
        let assertion = first_named(document, "Assertion"@)->Some_0;
        let signature = first_named(assertion, "Signature"@)->Some_0;
        let signed_info = first_named(signature, "SignedInfo"@)->Some_0;
        let id = lookup(assertion.attributes, "ID"@)->Some_0;
        found_is_the_first(document, "Assertion"@);
        found_is_the_first(assertion, "Signature"@);
        found_is_the_first(signature, "SignedInfo"@);
        let p = choose|path: Seq<int>| #[trigger] is_first(document, path, "Assertion"@);
        let q = choose|path: Seq<int>| #[trigger] is_first(assertion, path, "Signature"@);
        let t = choose|path: Seq<int>| #[trigger] is_first(signature, path, "SignedInfo"@);
        assert(bears(document, p, "Assertion"@));
        assert(bears(assertion, q, "Signature"@));
        assert(bears(signature, t, "SignedInfo"@));
        one_is_counted_where_one_stands(assertion, "Signature"@);
        looking_up_gives_the_first(assertion.attributes, "ID"@);
        assert(first_value(assertion.attributes, "ID"@, id));
        lemma_stated_verdicts(signed_info, id);
        lemma_profile(signed_info, id);
        lemma_somewhere(signed_info, "DigestValue"@);
        lemma_somewhere(signature, "SignatureValue"@);
        assert(in_shape(document, p, q, t));
    }
    if exists|p: Seq<int>, q: Seq<int>, t: Seq<int>| #[trigger] in_shape(document, p, q, t) {
        let (p, q, t) = choose|p: Seq<int>, q: Seq<int>, t: Seq<int>| #[trigger]
            in_shape(document, p, q, t);
        let assertion = reached(document, p)->Some_0;
        let signature = reached(assertion, q)->Some_0;
        let signed_info = reached(signature, t)->Some_0;
        found_is_the_first(document, "Assertion"@);
        assert(bears(document, p, "Assertion"@));
        lemma_only_is_first(assertion, q, "Signature"@);
        found_is_the_first(assertion, "Signature"@);
        found_is_the_first(signature, "SignedInfo"@);
        assert(bears(signature, t, "SignedInfo"@));
        one_is_counted_where_one_stands(assertion, "Signature"@);
        looking_up_gives_the_first(assertion.attributes, "ID"@);
        let id = choose|id: Seq<char>| #[trigger]
            first_value(assertion.attributes, "ID"@, id) && refers_to(signed_info, id);
        lemma_profile(signed_info, id);
        lemma_stated_verdicts(signed_info, id);
        lemma_somewhere(signed_info, "DigestValue"@);
        lemma_somewhere(signature, "SignatureValue"@);
    }
}

/// A signature is decided on by the shape of the document, by whether the digest
/// decoded is the one computed, and by whether a signature was decoded and
/// verifies.
pub proof fn a_signature_is_decided_on(
    document: &Element,
    digest: &Option<Vec<u8>>,
    value: &Option<Vec<u8>>,
    computed: &Vec<u8>,
    verifies: bool,
    r: Result<(), AuthenticateError>,
)
    requires
        call_ensures(decide, (document, digest, value, computed, verifies), r),
    ensures
        r is Ok <==> (digest matches Some(claimed) && claimed@ == computed@) && value is Some
            && verifies && exists|p: Seq<int>, q: Seq<int>, t: Seq<int>| #[trigger]
            in_shape(document@, p, q, t),
{
    lemma_shape(document@, bytes_view(*digest), bytes_view(*value), computed@, verifies);
}

/// What a signature is refused with is the first that fails: an assertion, its
/// ID, its signature, a second one, the `SignedInfo`, its methods, its reference,
/// the `DigestValue`, its decoding, the digest, the `SignatureValue`, its decoding
/// and the signature itself.
pub proof fn a_signature_is_refused_with_the_first_that_fails(
    document: &Element,
    digest: &Option<Vec<u8>>,
    value: &Option<Vec<u8>>,
    computed: &Vec<u8>,
    verifies: bool,
    refusal: AuthenticateError,
)
    requires
        call_ensures(
            decide,
            (document, digest, value, computed, verifies),
            Err::<(), AuthenticateError>(refusal),
        ),
    ensures
        ({
            let found = first_named(document@, "Assertion"@);
            let assertion = found->Some_0;
            let signature = first_named(assertion, "Signature"@)->Some_0;
            let info = first_named(signature, "SignedInfo"@);
            let signed_info = info->Some_0;
            let id = lookup(assertion.attributes, "ID"@);
            let carried = found is Some && id is Some && first_named(assertion, "Signature"@) is Some;
            let single = carried && count_named(assertion, "Signature"@) == 1;
            let stated = single && info is Some && methods_verdict(signed_info) is Ok
                && reference_verdict(signed_info, id->Some_0) is Ok;
            let digested = stated && first_named(signed_info, "DigestValue"@) is Some && (
            digest matches Some(claimed) && claimed@ == computed@);
            &&& found is None ==> refusal.message@ == "the document carries no Assertion"@
            &&& found is Some && id is None ==> refusal.message@
                == "the assertion has no ID to sign"@
            &&& found is Some && id is Some && !carried ==> refusal.message@
                == "the assertion carries no Signature"@
            &&& carried && !single ==> refusal.message@
                == "the assertion does not have exactly one Signature, which this profile requires"@
            &&& single && info is None ==> refusal.message@
                == "the Signature carries no SignedInfo"@
            &&& single && info is Some ==> (methods_verdict(signed_info) matches Err(fault)
                ==> refusal.message@ == fault)
            &&& single && info is Some && methods_verdict(signed_info) is Ok ==> (
            reference_verdict(signed_info, id->Some_0) matches Err(fault) ==> refusal.message@
                == fault)
            &&& stated && first_named(signed_info, "DigestValue"@) is None ==> refusal.message@
                == "the Reference carries no DigestValue"@
            &&& stated && first_named(signed_info, "DigestValue"@) is Some && digest is None
                ==> refusal.message@ == "the DigestValue is not base64"@
            &&& stated && first_named(signed_info, "DigestValue"@) is Some && digest is Some
                && !digested ==> refusal.message@
                == "the assertion's digest does not match the signed DigestValue: it was altered, or its canonical form is one this gate does not reproduce"@
            &&& digested && first_named(signature, "SignatureValue"@) is None ==> refusal.message@
                == "the Signature carries no SignatureValue"@
            &&& digested && first_named(signature, "SignatureValue"@) is Some && value is None
                ==> refusal.message@ == "the SignatureValue is not base64"@
            &&& digested && first_named(signature, "SignatureValue"@) is Some && value is Some
                ==> refusal.message@
                == "the assertion's signature does not verify with the IdP certificate"@
        }),
{
}

/// What a reference is refused with is the first that fails: that there is one, to
/// the assertion, with transforms that are applied, and the two of the profile.
pub proof fn a_reference_is_refused_with_the_first_that_fails(
    signed_info: &Element,
    id: &str,
    refusal: AuthenticateError,
    uri: Seq<char>,
    known: Seq<Seq<char>>,
    other: Seq<char>,
    later: Seq<Seq<char>>,
)
    requires
        call_ensures(
            check_reference,
            (signed_info, id),
            Err::<(), AuthenticateError>(refusal),
        ),
        with_local(child_elements(signed_info@.children), "Reference"@).len() == 1,
        value_or_nothing(
            with_local(child_elements(signed_info@.children), "Reference"@)[0].attributes,
            "URI"@,
            uri,
        ),
    ensures
        ({
            let reference = with_local(child_elements(signed_info@.children), "Reference"@)[0];
            &&& uri != seq!['#'] + id@ ==> refusal.message@ == "the signature's Reference is '"@
                + uri + "' and not the assertion '#"@ + id@ + "'"@
            &&& uri == seq!['#'] + id@ && transforms_of(reference) == known + seq![other] + later
                && (forall|i: int|
                0 <= i < known.len() ==> (#[trigger] known[i]
                    == "http://www.w3.org/2000/09/xmldsig#enveloped-signature"@ || known[i]
                    == "http://www.w3.org/2001/10/xml-exc-c14n#"@)) && other
                != "http://www.w3.org/2000/09/xmldsig#enveloped-signature"@ && other
                != "http://www.w3.org/2001/10/xml-exc-c14n#"@ ==> refusal.message@
                == "the Reference carries the transform '"@ + other
                + "', which this gate does not apply"@
            &&& uri == seq!['#'] + id@ && (forall|i: int|
                0 <= i < transforms_of(reference).len() ==> (#[trigger] transforms_of(reference)[i]
                    == "http://www.w3.org/2000/09/xmldsig#enveloped-signature"@ || transforms_of(
                    reference,
                )[i] == "http://www.w3.org/2001/10/xml-exc-c14n#"@)) ==> refusal.message@
                == "the Reference is not enveloped-signature then exclusive c14n, which this gate applies"@
        }),
{
    reveal_strlit("#");
    assert("#"@ =~= seq!['#']);
    let reference = with_local(child_elements(signed_info@.children), "Reference"@)[0];
    lemma_value(reference, "URI"@, uri);
    let read = transforms_of(reference);
    if read == known + seq![other] + later && (forall|i: int|
        0 <= i < known.len() ==> (#[trigger] known[i]
            == "http://www.w3.org/2000/09/xmldsig#enveloped-signature"@ || known[i]
            == "http://www.w3.org/2001/10/xml-exc-c14n#"@)) && other
        != "http://www.w3.org/2000/09/xmldsig#enveloped-signature"@ && other
        != "http://www.w3.org/2001/10/xml-exc-c14n#"@ {
        lemma_first_unknown(known, other, later);
    }
    if forall|i: int|
        0 <= i < read.len() ==> (#[trigger] read[i]
            == "http://www.w3.org/2000/09/xmldsig#enveloped-signature"@ || read[i]
            == "http://www.w3.org/2001/10/xml-exc-c14n#"@) {
        lemma_all_known(read);
    }
}

/// The first transform that is not applied comes after those that are.
proof fn lemma_first_unknown(known: Seq<Seq<char>>, other: Seq<char>, later: Seq<Seq<char>>)
    requires
        forall|i: int|
            0 <= i < known.len() ==> (#[trigger] known[i]
                == "http://www.w3.org/2000/09/xmldsig#enveloped-signature"@ || known[i]
                == "http://www.w3.org/2001/10/xml-exc-c14n#"@),
        other != "http://www.w3.org/2000/09/xmldsig#enveloped-signature"@,
        other != "http://www.w3.org/2001/10/xml-exc-c14n#"@,
    ensures
        first_unknown(known + seq![other] + later) == Some(other),
    decreases known.len(),
{
    let all = known + seq![other] + later;
    if known.len() > 0 {
        let rest = known.drop_first();
        assert(all[0] == known[0]);
        assert(all.drop_first() =~= rest + seq![other] + later);
        assert forall|i: int| 0 <= i < rest.len() implies (#[trigger] rest[i]
            == "http://www.w3.org/2000/09/xmldsig#enveloped-signature"@ || rest[i]
            == "http://www.w3.org/2001/10/xml-exc-c14n#"@) by {
            assert(rest[i] == known[i + 1]);
        }
        lemma_first_unknown(rest, other, later);
    } else {
        assert(all[0] == other);
    }
}

/// Where all are applied, none is unknown.
proof fn lemma_all_known(read: Seq<Seq<char>>)
    requires
        forall|i: int|
            0 <= i < read.len() ==> (#[trigger] read[i]
                == "http://www.w3.org/2000/09/xmldsig#enveloped-signature"@ || read[i]
                == "http://www.w3.org/2001/10/xml-exc-c14n#"@),
    ensures
        first_unknown(read) is None,
    decreases read.len(),
{
    if read.len() > 0 {
        let rest = read.drop_first();
        assert forall|i: int| 0 <= i < rest.len() implies (#[trigger] rest[i]
            == "http://www.w3.org/2000/09/xmldsig#enveloped-signature"@ || rest[i]
            == "http://www.w3.org/2001/10/xml-exc-c14n#"@) by {
            assert(rest[i] == read[i + 1]);
        }
        lemma_all_known(rest);
        assert(read[0] == "http://www.w3.org/2000/09/xmldsig#enveloped-signature"@ || read[0]
            == "http://www.w3.org/2001/10/xml-exc-c14n#"@);
    }
}

/// The texts that are covered are the canonical form of the first `Assertion`
/// without the first `Signature` taken out of it, in the scope of its ancestors,
/// and that of the first `SignedInfo` of its first `Signature`, in the scope of
/// that and its ancestors.
pub proof fn the_texts_covered_are_canonical_forms(
    document: &Element,
    r: Option<(String, String)>,
    to_assertion: Seq<int>,
    to_signature: Seq<int>,
    to_info: Seq<int>,
    outside: Seq<Pair>,
    between: Seq<Pair>,
    inside: Seq<Pair>,
)
    requires
        call_ensures(canonical_texts, (document,), r),
        is_first(document@, to_assertion, "Assertion"@),
        is_first(reached(document@, to_assertion)->Some_0, to_signature, "Signature"@),
        is_first(
            reached(reached(document@, to_assertion)->Some_0, to_signature)->Some_0,
            to_info,
            "SignedInfo"@,
        ),
        scope_at(document@, to_assertion, Seq::empty(), outside),
        scope_at(reached(document@, to_assertion)->Some_0, to_signature, outside, between),
        scope_inside(
            reached(reached(document@, to_assertion)->Some_0, to_signature)->Some_0,
            between,
            inside,
        ),
    ensures
        ({
            let assertion = reached(document@, to_assertion)->Some_0;
            let signature = reached(assertion, to_signature)->Some_0;
            r matches Some((digested, signed)) && signed@ == canonical_form(
                reached(signature, to_info)->Some_0,
                inside,
            ) && digested@ == canonical_form(without_signature(assertion), outside)
        }),
{
    let assertion = reached(document@, to_assertion)->Some_0;
    let signature = reached(assertion, to_signature)->Some_0;
    let signed_info = reached(signature, to_info)->Some_0;
    assert(bears(document@, to_assertion, "Assertion"@));
    assert(bears(assertion, to_signature, "Signature"@));
    assert(bears(signature, to_info, "SignedInfo"@));
    found_is_the_first(signature, "SignedInfo"@);
    lemma_scope_there(document@, Seq::empty(), "Assertion"@, to_assertion, Seq::empty(), outside);
    let (_, inherited) = located(document@, Seq::empty(), "Assertion"@)->Some_0;
    lemma_scope_there(assertion, inherited, "Signature"@, to_signature, outside, between);
    let (_, scope) = located(assertion, inherited, "Signature"@)->Some_0;
    let made = declare_all(scope, signature.namespaces);
    lemma_inside(signature, between, inside);
    assert(same_scope(inside, made)) by {
        assert forall|prefix: Seq<char>| #[trigger]
            namespace_of(inside, prefix) == namespace_of(made, prefix) by {
            the_last_declaration_counts(scope, signature.namespaces, prefix);
            the_last_declaration_counts(between, signature.namespaces, prefix);
            assert(namespace_of(between, prefix) == namespace_of(scope, prefix));
            assert(namespace_of(inside, prefix) == namespace_of(
                declare_all(between, signature.namespaces),
                prefix,
            ));
        }
    }
    lemma_same_form(signed_info, inside, made);
    lemma_same_form(without_signature(assertion), outside, inherited);
}

/// The scope located agrees with any that is the scope there.
proof fn lemma_scope_there(
    element: ElementModel,
    inherited: Seq<Pair>,
    local: Seq<char>,
    path: Seq<int>,
    outside: Seq<Pair>,
    scope: Seq<Pair>,
)
    requires
        is_first(element, path, local),
        same_scope(outside, inherited),
        scope_at(element, path, outside, scope),
    ensures
        located(element, inherited, local) matches Some((found, given)) && reached(element, path)
            == Some(found) && same_scope(scope, given),
{
    the_scope_is_that_of_the_ancestors(element, inherited, local, path, Seq::empty());
    let (_, given) = located(element, inherited, local)->Some_0;
    assert forall|prefix: Seq<char>| #[trigger]
        namespace_of(scope, prefix) == namespace_of(given, prefix) by {
        the_scope_is_that_of_the_ancestors(element, inherited, local, path, prefix);
        assert(namespace_of(outside, prefix) == namespace_of(inherited, prefix));
        assert(stands_for(
            element,
            path,
            namespace_of(outside, prefix),
            prefix,
            namespace_of(scope, prefix),
        ));
        lemma_one_meaning(
            element,
            path,
            namespace_of(inherited, prefix),
            prefix,
            namespace_of(scope, prefix),
            namespace_of(given, prefix),
        );
    }
}

} // verus!
