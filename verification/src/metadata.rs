//! The source domain of a download, read from the property list that macOS
//! stores in the `com.apple.metadata:kMDItemWhereFroms` attribute.
use vstd::prelude::*;
use crate::text::{chars_of, string_of, starts_with, starts_with_chars, is_white_space, char_is_whitespace,
    trim_where, trim_bounds, trim_pred};
use crate::pathing::{opt_view, char_vecs, sub_chars};
use crate::queues::unknown_source;

verus! {

/// The parts of a property-list value that the source lookup reads.
pub enum PlistNode {
    Array(Vec<PlistNode>),
    /// A dictionary's values, in the dictionary's order.
    Dictionary(Vec<PlistNode>),
    String(String),
    /// Any other kind of value.
    Other,
}

/// The abstract value of a property-list node.
pub enum PlistTree {
    Array(Seq<PlistTree>),
    Dictionary(Seq<PlistTree>),
    Text(Seq<char>),
    Other,
}

pub open spec fn plist_tree(n: PlistNode) -> PlistTree
    decreases n,
{
    match n {
        PlistNode::Array(items) => PlistTree::Array(
            Seq::new(items@.len(), |i: int| if 0 <= i < items@.len() { plist_tree(items@[i]) } else { PlistTree::Other })),
        PlistNode::Dictionary(items) => PlistTree::Dictionary(
            Seq::new(items@.len(), |i: int| if 0 <= i < items@.len() { plist_tree(items@[i]) } else { PlistTree::Other })),
        PlistNode::String(s) => PlistTree::Text(s@),
        PlistNode::Other => PlistTree::Other,
    }
}

/// The value that `plist::Value::from_reader` reads from `bytes`, when it
/// reads one: a function of the bytes alone.
pub uninterp spec fn plist_document(bytes: Seq<u8>) -> Option<PlistTree>;

#[verifier::external_type_specification]
#[verifier::external_body]
pub struct ExPlistError(plist::Error);

#[verifier::external_type_specification]
#[verifier::external_body]
pub struct ExPlistValue(plist::Value);

/// Converts a `plist::Value` to a `PlistNode`, one variant for one variant.
#[verifier::external_body]
fn plist_node_of(value: &plist::Value) -> PlistNode {
    match value {
        plist::Value::Array(items) => PlistNode::Array(items.iter().map(plist_node_of).collect()),
        plist::Value::Dictionary(dict) => PlistNode::Dictionary(dict.values().map(plist_node_of).collect()),
        plist::Value::String(s) => PlistNode::String(s.clone()),
        _ => PlistNode::Other,
    }
}

/// Reads a property list of any encoding with `plist::Value::from_reader`.
/// The contract says that it succeeds exactly when `plist_document` has a
/// value for the bytes, and that the value read is that one.
#[verifier::external_body]
fn parse_plist(bytes: &[u8]) -> (r: Result<PlistNode, plist::Error>)
    ensures
        r is Ok <==> plist_document(bytes@) is Some,
        r matches Ok(n) ==> plist_document(bytes@) == Some(plist_tree(n)),
{
    plist::Value::from_reader(std::io::Cursor::new(bytes)).map(|value| plist_node_of(&value))
}

/// The strings of a property list, depth first, in order.
pub open spec fn plist_strings(t: PlistTree) -> Seq<Seq<char>>
    decreases t,
{
    match t {
        PlistTree::Text(s) => seq![s],
        PlistTree::Array(items) => strings_of_items(items),
        PlistTree::Dictionary(items) => strings_of_items(items),
        PlistTree::Other => Seq::empty(),
    }
}

pub open spec fn strings_of_items(items: Seq<PlistTree>) -> Seq<Seq<char>>
    decreases items,
{
    if items.len() == 0 {
        Seq::empty()
    } else {
        strings_of_items(items.drop_last()) + plist_strings(items.last())
    }
}

pub open spec fn strings_view(v: Seq<String>) -> Seq<Seq<char>> {
    Seq::new(v.len(), |i: int| v[i]@)
}

fn push_string(output: &mut Vec<String>, s: &String)
    ensures
        strings_view(final(output)@) == strings_view(old(output)@) + plist_strings(PlistTree::Text(s@)),
{
    let ghost before = output@;
    output.push(s.clone());
    assert(strings_view(output@) =~= strings_view(before) + seq![s@]);
}

/// Appends the strings of a property list, depth first.
pub fn collect_plist_strings(node: &PlistNode, output: &mut Vec<String>)
    ensures
        strings_view(final(output)@) == strings_view(old(output)@) + plist_strings(plist_tree(*node)),
    decreases node,
{
    match node {
        PlistNode::String(s) => {
            push_string(output, s);
            assert(plist_tree(*node) == PlistTree::Text(s@));
        },
        PlistNode::Array(items) => {
            collect_items(items, output);
            let ghost ts = Seq::new(items@.len(), |i: int| if 0 <= i < items@.len() { plist_tree(items@[i]) } else { PlistTree::Other });
            assert(plist_tree(*node) matches PlistTree::Array(t) && t =~= ts);
        },
        PlistNode::Dictionary(items) => {
            collect_items(items, output);
            let ghost ts = Seq::new(items@.len(), |i: int| if 0 <= i < items@.len() { plist_tree(items@[i]) } else { PlistTree::Other });
            assert(plist_tree(*node) matches PlistTree::Dictionary(t) && t =~= ts);
        },
        PlistNode::Other => {
            assert(plist_tree(*node) == PlistTree::Other);
            assert(strings_view(output@) =~= strings_view(output@) + Seq::<Seq<char>>::empty());
        },
    }
}

fn collect_items(items: &Vec<PlistNode>, output: &mut Vec<String>)
    ensures
        strings_view(final(output)@) == strings_view(old(output)@) + strings_of_items(
            Seq::new(items@.len(), |i: int| if 0 <= i < items@.len() { plist_tree(items@[i]) } else { PlistTree::Other })),
    decreases items,
{
    let ghost ts = Seq::new(items@.len(), |i: int| if 0 <= i < items@.len() { plist_tree(items@[i]) } else { PlistTree::Other });
    let ghost start = strings_view(output@);
    let mut i: usize = 0;
    assert(ts.take(0) =~= Seq::<PlistTree>::empty());
    assert(start + Seq::<Seq<char>>::empty() == start);
    while i < items.len()
        invariant
            i <= items@.len(),
            ts == Seq::new(items@.len(), |i: int| if 0 <= i < items@.len() { plist_tree(items@[i]) } else { PlistTree::Other }),
            strings_view(output@) == start + strings_of_items(ts.take(i as int)),
        decreases items.len() - i,
    {
        assert(ts.take(i as int + 1).drop_last() == ts.take(i as int));
        assert(ts.take(i as int + 1).last() == plist_tree(items@[i as int]));
        collect_plist_strings(&items[i], output);
        i = i + 1;
    }
    assert(ts.take(items@.len() as int) == ts);
}

} // verus!

verus! {

/// The characters at which the text of a source is cut into tokens.
pub open spec fn is_token_separator(c: char) -> bool {
    is_white_space(c) || c == '"' || c == '\'' || c == '(' || c == ')' || c == '<' || c == '>' || c == ','
}

/// The text cut at every separator, as `str::split` with a predicate does.
pub open spec fn split_tokens(s: Seq<char>) -> Seq<Seq<char>>
    decreases s.len(),
{
    if s.len() == 0 {
        seq![Seq::<char>::empty()]
    } else if is_token_separator(s.last()) {
        split_tokens(s.drop_last()).push(Seq::<char>::empty())
    } else {
        let p = split_tokens(s.drop_last());
        p.update(p.len() - 1, p.last().push(s.last()))
    }
}

proof fn lemma_split_tokens_nonempty(s: Seq<char>)
    ensures
        split_tokens(s).len() >= 1,
    decreases s.len(),
{
    if s.len() > 0 {
        lemma_split_tokens_nonempty(s.drop_last());
    }
}

/// The host that `url::Url::parse` finds in `text`, read with `host_str`;
/// `None` when the text does not parse or the URL has no host. A function of
/// the text alone.
pub uninterp spec fn url_host(text: Seq<char>) -> Option<Seq<char>>;

/// Parses `text` with `url::Url::parse` and reads the host with `host_str`.
/// The contract ties the result to `url_host` of the text.
#[verifier::external_body]
fn parse_url_host(text: &str) -> (r: Option<String>)
    ensures
        opt_view(r) == url_host(text@),
{
    url::Url::parse(text).ok().and_then(|url| url.host_str().map(|host| host.to_string()))
}

/// A host without a leading `www.`.
pub open spec fn without_www(host: Seq<char>) -> Seq<char> {
    if starts_with(host, "www."@) { host.skip(4) } else { host }
}

/// The domain a token names: the token, trimmed of marks, must start with
/// `http://` or `https://` and parse as a URL with a host.
pub open spec fn token_domain(token: Seq<char>) -> Option<Seq<char>> {
    let t = trim_where(token, trim_pred(1));
    if !(starts_with(t, "http://"@) || starts_with(t, "https://"@)) {
        None
    } else {
        match url_host(t) {
            Some(host) => Some(without_www(host)),
            None => None,
        }
    }
}

/// The domain of the first token that names one.
pub open spec fn first_token_domain(tokens: Seq<Seq<char>>) -> Option<Seq<char>>
    decreases tokens.len(),
{
    if tokens.len() == 0 {
        None
    } else {
        match token_domain(tokens[0]) {
            Some(d) => Some(d),
            None => first_token_domain(tokens.drop_first()),
        }
    }
}

/// The domain of the first `http://` or `https://` URL in `text`.
pub open spec fn first_domain_spec(text: Seq<char>) -> Option<Seq<char>> {
    first_token_domain(split_tokens(text))
}

fn is_separator(c: char) -> (r: bool)
    ensures
        r == is_token_separator(c),
{
    char_is_whitespace(c) || c == '"' || c == '\'' || c == '(' || c == ')' || c == '<' || c == '>' || c == ','
}

fn split_at_separators(s: &Vec<char>) -> (parts: Vec<Vec<char>>)
    ensures
        char_vecs(parts@) == split_tokens(s@),
{
    let mut parts: Vec<Vec<char>> = Vec::new();
    let mut cur: Vec<char> = Vec::new();
    let mut i: usize = 0;
    while i < s.len()
        invariant
            i <= s.len(),
            char_vecs(parts@).push(cur@) == split_tokens(s@.take(i as int)),
        decreases s.len() - i,
    {
        let c = s[i];
        let ghost before = char_vecs(parts@).push(cur@);
        proof {
            assert(s@.take(i as int + 1).drop_last() == s@.take(i as int));
            assert(s@.take(i as int + 1).last() == c);
        }
        if is_separator(c) {
            parts.push(cur);
            cur = Vec::new();
            assert(char_vecs(parts@).push(cur@) == before.push(Seq::<char>::empty()));
        } else {
            cur.push(c);
            assert(char_vecs(parts@).push(cur@) == before.update(before.len() - 1, before.last().push(c)));
        }
        i = i + 1;
    }
    assert(s@.take(s@.len() as int) == s@);
    parts.push(cur);
    parts
}

/// The domain a token names, if any.
fn domain_of_token(token: &Vec<char>) -> (r: Option<String>)
    ensures
        opt_view(r) == token_domain(token@),
{
    let (a, b) = trim_bounds(token, 1);
    let t = sub_chars(token, a, b);
    if !(starts_with_chars(t.as_slice(), chars_of("http://").as_slice())
        || starts_with_chars(t.as_slice(), chars_of("https://").as_slice())) {
        return None;
    }
    let ts = string_of(t.as_slice());
    match parse_url_host(ts.as_str()) {
        None => None,
        Some(host) => Some(strip_www(host.as_str())),
    }
}

/// The host without a leading `www.` (see `without_www`).
pub fn strip_www(host: &str) -> (r: String)
    ensures
        r@ == without_www(host@),
{
    let h = chars_of(host);
    if starts_with_chars(h.as_slice(), chars_of("www.").as_slice()) {
        proof { reveal_strlit("www."); }
        let rest = sub_chars(&h, 4, h.len());
        assert(rest@ == h@.skip(4));
        string_of(rest.as_slice())
    } else {
        string_of(h.as_slice())
    }
}

/// The domain of the first `http://` or `https://` URL in `text`, without a
/// leading `www.`.
pub fn first_domain_in_text(text: &str) -> (r: Option<String>)
    ensures
        opt_view(r) == first_domain_spec(text@),
        r matches Some(d) ==> exists|j: int| 0 <= j < split_tokens(text@).len()
            && #[trigger] token_domain(split_tokens(text@)[j]) == Some(d@)
            && forall|i: int| 0 <= i < j ==> (#[trigger] token_domain(split_tokens(text@)[i])) is None,
        r is None ==> forall|i: int| 0 <= i < split_tokens(text@).len() ==> (#[trigger] token_domain(split_tokens(text@)[i])) is None,
{
    proof { lemma_first_token_domain(split_tokens(text@)); }
    let cs = chars_of(text);
    let tokens = split_at_separators(&cs);
    let ghost ts = char_vecs(tokens@);
    let mut i: usize = 0;
    assert(ts.skip(0) == ts);
    while i < tokens.len()
        invariant
            i <= tokens@.len(),
            ts == char_vecs(tokens@),
            ts == split_tokens(text@),
            first_token_domain(ts) == first_token_domain(ts.skip(i as int)),
        decreases tokens.len() - i,
    {
        assert(ts.skip(i as int)[0] == tokens@[i as int]@);
        assert(ts.skip(i as int).drop_first() == ts.skip(i as int + 1));
        match domain_of_token(&tokens[i]) {
            Some(d) => {
                proof { lemma_first_token_domain(ts); }
                return Some(d);
            },
            None => {},
        }
        i = i + 1;
    }
    assert(ts.skip(i as int) =~= Seq::<Seq<char>>::empty());
    None
}

/// Why the source of a download could not be read.
#[derive(PartialEq, Eq, Structural, Clone, Copy, Debug)]
pub enum MetadataError {
    /// The attribute holds no readable property list.
    InvalidPlist,
}

/// What the source lookup yields for the attribute's bytes (`None` when the
/// file has no such attribute).
pub open spec fn source_domain_spec(bytes: Option<Seq<u8>>) -> Result<Seq<char>, MetadataError> {
    match bytes {
        None => Ok(unknown_source()),
        Some(b) => match plist_document(b) {
            None => Err(MetadataError::InvalidPlist),
            Some(t) => match first_source(plist_strings(t)) {
                Some(d) => Ok(d),
                None => Ok(unknown_source()),
            },
        },
    }
}

/// The domain of the first string of the list that names one.
pub open spec fn first_source(candidates: Seq<Seq<char>>) -> Option<Seq<char>>
    decreases candidates.len(),
{
    if candidates.len() == 0 {
        None
    } else {
        match first_domain_spec(candidates[0]) {
            Some(d) => Some(d),
            None => first_source(candidates.drop_first()),
        }
    }
}

/// The source domain that a parsed `kMDItemWhereFroms` list names: the domain
/// of the first URL among its strings, or `未知来源` when none names one.
pub fn source_domain_of_plist(node: &PlistNode) -> (r: String)
    ensures
        r@ == match first_source(plist_strings(plist_tree(*node))) {
            Some(d) => d,
            None => unknown_source(),
        },
        ({
            let cs = plist_strings(plist_tree(*node));
            ||| exists|j: int| 0 <= j < cs.len() && #[trigger] first_domain_spec(cs[j]) == Some(r@)
                && forall|i: int| 0 <= i < j ==> (#[trigger] first_domain_spec(cs[i])) is None
            ||| r@ == unknown_source() && forall|i: int| 0 <= i < cs.len() ==> (#[trigger] first_domain_spec(cs[i])) is None
        }),
{
    proof { lemma_first_source(plist_strings(plist_tree(*node))); }
    let mut candidates: Vec<String> = Vec::new();
    collect_plist_strings(node, &mut candidates);
    let ghost cs = strings_view(candidates@);
    assert(cs == plist_strings(plist_tree(*node))) by {
        assert(strings_view(Seq::<String>::empty()) =~= Seq::<Seq<char>>::empty());
    }
    let mut i: usize = 0;
    assert(cs.skip(0) == cs);
    while i < candidates.len()
        invariant
            i <= candidates@.len(),
            cs == strings_view(candidates@),
            cs == plist_strings(plist_tree(*node)),
            first_source(cs) == first_source(cs.skip(i as int)),
        decreases candidates.len() - i,
    {
        assert(cs.skip(i as int)[0] == candidates@[i as int]@);
        assert(cs.skip(i as int).drop_first() == cs.skip(i as int + 1));
        match first_domain_in_text(candidates[i].as_str()) {
            Some(d) => {
                proof { lemma_first_source(cs); }
                return d;
            },
            None => {},
        }
        i = i + 1;
    }
    assert(cs.skip(i as int) =~= Seq::<Seq<char>>::empty());
    string_of(chars_of("未知来源").as_slice())
}

/// The source domain of a download from the bytes of its
/// `kMDItemWhereFroms` attribute: the domain of the first URL among the
/// property list's strings, or `未知来源` when there is no attribute or no URL.
pub fn extract_source_domain(where_froms: Option<&[u8]>) -> (r: Result<String, MetadataError>)
    ensures
        match r {
            Ok(s) => source_domain_spec(match where_froms { Some(b) => Some(b@), None => None }) == Ok::<Seq<char>, MetadataError>(s@),
            Err(e) => source_domain_spec(match where_froms { Some(b) => Some(b@), None => None }) == Err::<Seq<char>, MetadataError>(e),
        },
{
    let bytes = match where_froms {
        None => return Ok(string_of(chars_of("未知来源").as_slice())),
        Some(b) => b,
    };
    match parse_plist(bytes) {
        Err(_) => Err(MetadataError::InvalidPlist),
        Ok(node) => Ok(source_domain_of_plist(&node)),
    }
}

} // verus!

verus! {

/// The domain found among tokens is that of the first token naming one: when
/// one is found, some token names it and no earlier token names any domain;
/// when none is found, no token names one.
pub proof fn lemma_first_token_domain(tokens: Seq<Seq<char>>)
    ensures
        first_token_domain(tokens) matches Some(d) ==> exists|j: int| 0 <= j < tokens.len()
            && #[trigger] token_domain(tokens[j]) == Some(d)
            && forall|i: int| 0 <= i < j ==> (#[trigger] token_domain(tokens[i])) is None,
        first_token_domain(tokens) is None ==> forall|i: int| 0 <= i < tokens.len() ==> (#[trigger] token_domain(tokens[i])) is None,
    decreases tokens.len(),
{
    if tokens.len() > 0 {
        let rest = tokens.drop_first();
        lemma_first_token_domain(rest);
        if token_domain(tokens[0]) is Some {
            assert(token_domain(tokens[0]) == first_token_domain(tokens));
        } else {
            if first_token_domain(rest) is Some {
                let d = first_token_domain(rest)->0;
                let j = choose|j: int| 0 <= j < rest.len() && #[trigger] token_domain(rest[j]) == Some(d)
                    && forall|i: int| 0 <= i < j ==> (#[trigger] token_domain(rest[i])) is None;
                assert(tokens[j + 1] == rest[j]);
                assert forall|i: int| 0 <= i < j + 1 implies (#[trigger] token_domain(tokens[i])) is None by {
                    if i > 0 {
                        assert(tokens[i] == rest[i - 1]);
                    }
                }
                assert(token_domain(tokens[j + 1]) == Some(d));
            } else {
                assert forall|i: int| 0 <= i < tokens.len() implies (#[trigger] token_domain(tokens[i])) is None by {
                    if i > 0 {
                        assert(tokens[i] == rest[i - 1]);
                    }
                }
            }
        }
    }
}

} // verus!

verus! {

/// The source found among a property list's strings is the domain of the
/// first string naming one: when one is found, some string names it and no
/// earlier string names any domain; when none is found, no string names one.
pub proof fn lemma_first_source(candidates: Seq<Seq<char>>)
    ensures
        first_source(candidates) matches Some(d) ==> exists|j: int| 0 <= j < candidates.len()
            && #[trigger] first_domain_spec(candidates[j]) == Some(d)
            && forall|i: int| 0 <= i < j ==> (#[trigger] first_domain_spec(candidates[i])) is None,
        first_source(candidates) is None ==> forall|i: int| 0 <= i < candidates.len() ==> (#[trigger] first_domain_spec(candidates[i])) is None,
    decreases candidates.len(),
{
    if candidates.len() > 0 {
        let rest = candidates.drop_first();
        lemma_first_source(rest);
        if first_domain_spec(candidates[0]) is Some {
            assert(first_domain_spec(candidates[0]) == first_source(candidates));
        } else {
            if first_source(rest) is Some {
                let d = first_source(rest)->0;
                let j = choose|j: int| 0 <= j < rest.len() && #[trigger] first_domain_spec(rest[j]) == Some(d)
                    && forall|i: int| 0 <= i < j ==> (#[trigger] first_domain_spec(rest[i])) is None;
                assert(candidates[j + 1] == rest[j]);
                assert forall|i: int| 0 <= i < j + 1 implies (#[trigger] first_domain_spec(candidates[i])) is None by {
                    if i > 0 {
                        assert(candidates[i] == rest[i - 1]);
                    }
                }
                assert(first_domain_spec(candidates[j + 1]) == Some(d));
            } else {
                assert forall|i: int| 0 <= i < candidates.len() implies (#[trigger] first_domain_spec(candidates[i])) is None by {
                    if i > 0 {
                        assert(candidates[i] == rest[i - 1]);
                    }
                }
            }
        }
    }
}

} // verus!
