//! TOML documents, read and edited in place.
//!
//! A document is seen as the places in it: a place is reached by a path of
//! keys and indices, holds a string, a table, an array and so on, and has a
//! layout: how it is written, the white space and comments that are kept with
//! it, and where a table stands in the document. Edits replace what stands at a
//! place and keep everything around it.

use crate::text;
use vstd::prelude::*;

verus! {

// ---------------------------------------------------------------------------
// The model
// ---------------------------------------------------------------------------

/// An editable TOML document.
#[verifier::external_type_specification]
#[verifier::external_body]
pub struct ExDocumentMut(toml_edit::DocumentMut);

/// A place in a TOML document.
#[verifier::external_type_specification]
#[verifier::external_body]
pub struct ExItem(toml_edit::Item);

/// A value with its surroundings.
#[verifier::external_type_specification]
#[verifier::external_body]
#[verifier::reject_recursive_types(T)]
pub struct ExFormatted<T>(toml_edit::Formatted<T>);

/// The white space and comments around a value.
#[verifier::external_type_specification]
#[verifier::external_body]
pub struct ExDecor(toml_edit::Decor);

/// One step of a path.
#[derive(Debug, Clone)]
pub enum TomlStep {
    /// A key of a table.
    Key(String),
    /// An index of an array.
    Index(usize),
}

/// Mathematical view of a [`TomlStep`].
pub ghost enum StepView {
    Key(Seq<char>),
    Index(int),
}

impl View for TomlStep {
    type V = StepView;

    open spec fn view(&self) -> StepView {
        match self {
            TomlStep::Key(k) => StepView::Key(k@),
            TomlStep::Index(i) => StepView::Index(*i as int),
        }
    }
}

/// Views of a path.
pub open spec fn path_view(path: Seq<TomlStep>) -> Seq<StepView> {
    path.map_values(|s: TomlStep| s@)
}

/// What stands at a place, as far as the library looks at it.
#[derive(Debug, Clone)]
pub enum TomlNode {
    /// A string.
    Text(String),
    /// A boolean.
    Bool(bool),
    /// An array with its length.
    Array(usize),
    /// An inline table.
    Inline,
    /// A table with its keys, in order.
    Table(Vec<String>),
    /// Anything else.
    Other,
}

/// What stands at a place.
pub ghost enum NodeView {
    /// A string.
    Text(Seq<char>),
    /// A boolean.
    Bool(bool),
    /// An array with its length.
    Array(nat),
    /// An inline table with its keys, in order.
    Inline(Seq<Seq<char>>),
    /// A table with its keys, in order.
    Table(Seq<Seq<char>>),
    /// An array of tables with its length.
    Tables(nat),
    /// A number or a date, as it is written.
    Other(Seq<char>),
}

impl TomlNode {
    /// This is what is looked at of what stands at a place.
    pub open spec fn shows(self, holds: NodeView) -> bool {
        match self {
            TomlNode::Text(s) => holds == NodeView::Text(s@),
            TomlNode::Bool(b) => holds == NodeView::Bool(b),
            TomlNode::Array(n) => holds == NodeView::Array(n as nat),
            TomlNode::Inline => holds is Inline,
            TomlNode::Table(keys) => holds == NodeView::Table(text::string_views(keys@)),
            TomlNode::Other => holds is Tables || holds is Other,
        }
    }
}

/// The layout of a place.
pub ghost struct LayoutView {
    /// The white space and comments before it.
    pub prefix: Option<Seq<char>>,
    /// The white space and comments behind it.
    pub suffix: Option<Seq<char>>,
    /// How a string, boolean, number or date is written, as far as that is
    /// recorded; what is not recorded is written in some default way.
    pub written: Option<Seq<char>>,
    /// The keys as they are written, with the white space and comments around
    /// them, and those before a closing bracket.
    pub inside: Seq<Seq<char>>,
    /// A comma stands behind the last element.
    pub comma: bool,
    /// Where a table stands among the tables of the document.
    pub position: Option<int>,
    /// A table has no header of its own.
    pub implied: bool,
    /// A table stands for dotted keys.
    pub dotted: bool,
}

/// The layout of a value that has just been made.
pub open spec fn bare_layout() -> LayoutView {
    LayoutView {
        prefix: None,
        suffix: None,
        written: None,
        inside: seq![],
        comma: false,
        position: None,
        implied: false,
        dotted: false,
    }
}

/// A layout without a record of how the value is written.
pub open spec fn unwritten(layout: LayoutView) -> LayoutView {
    LayoutView { written: None, ..layout }
}

/// A place: what stands there, and its layout.
pub ghost struct PlaceView {
    pub holds: NodeView,
    pub layout: LayoutView,
}

/// The places below an item by their paths from it, with what stands there.
/// The item itself is at the empty path; an absent item has no places.
pub uninterp spec fn item_nodes(item: toml_edit::Item) -> Map<Seq<StepView>, PlaceView>;

/// The places of a document, by their paths from its root.
pub uninterp spec fn doc_nodes(doc: toml_edit::DocumentMut) -> Map<Seq<StepView>, PlaceView>;

/// What stands behind the last table of a document: white space and comments.
pub uninterp spec fn doc_trailing(doc: toml_edit::DocumentMut) -> Seq<char>;

/// The value of a string.
pub uninterp spec fn string_value(s: toml_edit::Formatted<String>) -> Seq<char>;

/// The layout of a string.
pub uninterp spec fn string_layout(s: toml_edit::Formatted<String>) -> LayoutView;

/// The layout that a decor gives to a string.
pub uninterp spec fn decor_layout(d: toml_edit::Decor) -> LayoutView;

/// The text of a document.
pub uninterp spec fn doc_text(doc: toml_edit::DocumentMut) -> Seq<char>;

/// A document: its places, by their paths from the root, and what stands behind
/// the last of them.
pub ghost struct DocView {
    pub places: Map<Seq<StepView>, PlaceView>,
    pub trailing: Seq<char>,
}

/// Everything that is seen of a document.
pub open spec fn doc_view(doc: toml_edit::DocumentMut) -> DocView {
    DocView { places: doc_nodes(doc), trailing: doc_trailing(doc) }
}

/// What parsing a text as TOML yields: the document, or the message of the
/// parse error.
pub uninterp spec fn toml_parse(s: Seq<char>) -> Result<DocView, Seq<char>>;

/// `p` lies at or below `path`.
pub open spec fn reaches(path: Seq<StepView>, p: Seq<StepView>) -> bool {
    path.len() <= p.len() && p.take(path.len() as int) == path
}

/// The places at and below a path, by their paths from it.
pub open spec fn under(nodes: Map<Seq<StepView>, PlaceView>, path: Seq<StepView>) -> Map<
    Seq<StepView>,
    PlaceView,
> {
    Map::new(
        |p: Seq<StepView>| nodes.contains_key(path + p),
        |p: Seq<StepView>| nodes[path + p],
    )
}

/// The places with everything at and below a path replaced.
pub open spec fn with_under(
    nodes: Map<Seq<StepView>, PlaceView>,
    path: Seq<StepView>,
    sub: Map<Seq<StepView>, PlaceView>,
) -> Map<Seq<StepView>, PlaceView> {
    Map::new(
        |p: Seq<StepView>|
            if reaches(path, p) {
                sub.contains_key(p.skip(path.len() as int))
            } else {
                nodes.contains_key(p)
            },
        |p: Seq<StepView>|
            if reaches(path, p) {
                sub[p.skip(path.len() as int)]
            } else {
                nodes[p]
            },
    )
}

/// No path that begins with `step` leads anywhere.
pub open spec fn nothing_below(nodes: Map<Seq<StepView>, PlaceView>, step: StepView) -> bool {
    forall|p: Seq<StepView>| p.len() > 0 && p[0] == step ==> !#[trigger] nodes.contains_key(p)
}

/// A single string.
pub open spec fn text_node(s: Seq<char>, layout: LayoutView) -> Map<Seq<StepView>, PlaceView> {
    map![Seq::<StepView>::empty() => PlaceView { holds: NodeView::Text(s), layout }]
}

/// The layout that a new string takes over: that of the string before it, but
/// for how that one was written.
pub open spec fn kept_layout(nodes: Map<Seq<StepView>, PlaceView>) -> LayoutView {
    if as_text(nodes) is Some {
        unwritten(nodes[seq![]].layout)
    } else {
        bare_layout()
    }
}

/// The places after a string has been put at a path: the string stands there
/// with nothing below it, between what stood around the string before it, and
/// every other place is as before.
pub open spec fn with_text(
    nodes: Map<Seq<StepView>, PlaceView>,
    path: Seq<StepView>,
    s: Seq<char>,
) -> Map<Seq<StepView>, PlaceView> {
    with_under(nodes, path, text_node(s, kept_layout(under(nodes, path))))
}

/// The places below a key.
pub open spec fn at_key(nodes: Map<Seq<StepView>, PlaceView>, key: Seq<char>) -> Map<
    Seq<StepView>,
    PlaceView,
> {
    under(nodes, seq![StepView::Key(key)])
}

/// The places below an index.
pub open spec fn at_index(nodes: Map<Seq<StepView>, PlaceView>, i: int) -> Map<
    Seq<StepView>,
    PlaceView,
> {
    under(nodes, seq![StepView::Index(i)])
}

/// Something stands at the place itself.
pub open spec fn present(nodes: Map<Seq<StepView>, PlaceView>) -> bool {
    nodes.contains_key(seq![])
}

/// The string that stands at the place itself.
pub open spec fn as_text(nodes: Map<Seq<StepView>, PlaceView>) -> Option<Seq<char>> {
    if present(nodes) {
        match nodes[seq![]].holds {
            NodeView::Text(s) => Some(s),
            _ => None,
        }
    } else {
        None
    }
}

/// The boolean that stands at the place itself.
pub open spec fn as_bool(nodes: Map<Seq<StepView>, PlaceView>) -> Option<bool> {
    if present(nodes) {
        match nodes[seq![]].holds {
            NodeView::Bool(b) => Some(b),
            _ => None,
        }
    } else {
        None
    }
}

/// The keys of the table that stands at the place itself.
pub open spec fn as_table(nodes: Map<Seq<StepView>, PlaceView>) -> Option<Seq<Seq<char>>> {
    if present(nodes) {
        match nodes[seq![]].holds {
            NodeView::Table(keys) => Some(keys),
            _ => None,
        }
    } else {
        None
    }
}

/// The length of the array that stands at the place itself.
pub open spec fn as_array(nodes: Map<Seq<StepView>, PlaceView>) -> Option<nat> {
    if present(nodes) {
        match nodes[seq![]].holds {
            NodeView::Array(n) => Some(n),
            _ => None,
        }
    } else {
        None
    }
}

/// The keys of a table or inline table.
pub open spec fn keys_of(holds: NodeView) -> Option<Seq<Seq<char>>> {
    match holds {
        NodeView::Inline(keys) => Some(keys),
        NodeView::Table(keys) => Some(keys),
        _ => None,
    }
}

/// The keys of every table and inline table are those at which something
/// stands.
pub open spec fn listed(nodes: Map<Seq<StepView>, PlaceView>) -> bool {
    forall|p: Seq<StepView>, key: Seq<char>|
        nodes.contains_key(p) ==> (keys_of(nodes[p].holds) matches Some(keys) ==> (keys.contains(
            key,
        ) <==> #[trigger] nodes.contains_key(p.push(StepView::Key(key)))))
}

/// An inline table stands at the place itself.
pub open spec fn is_inline(nodes: Map<Seq<StepView>, PlaceView>) -> bool {
    present(nodes) && nodes[seq![]].holds is Inline
}

// ---------------------------------------------------------------------------
// The outside document
// ---------------------------------------------------------------------------

/// Parsing a text as `toml_edit::DocumentMut`. What it yields depends on the
/// text alone; the root of a parsed document is a table, and its tables hold
/// what their keys name.
#[verifier::external_body]
pub(crate) fn parse_document(content: &str) -> (r: Result<toml_edit::DocumentMut, String>)
    ensures
        match r {
            Ok(doc) => toml_parse(content@) == Ok::<DocView, Seq<char>>(doc_view(doc)),
            Err(e) => toml_parse(content@) == Err::<DocView, Seq<char>>(e@),
        },
        r matches Ok(doc) ==> as_table(doc_nodes(doc)) is Some && listed(doc_nodes(doc)),
{
    content.parse::<toml_edit::DocumentMut>().map_err(|e| e.to_string())
}

/// `toml_edit::DocumentMut::to_string`, which needs a table at the root: the
/// text depends on the document alone. How the places and their layout make up
/// the text is not said here.
#[verifier::external_body]
pub(crate) fn render(doc: &toml_edit::DocumentMut) -> (r: String)
    requires
        as_table(doc_nodes(*doc)) is Some,
    ensures
        r@ == doc_text(*doc),
{
    doc.to_string()
}

/// `toml_edit::DocumentMut::as_item`: the root holds the places of the
/// document.
#[verifier::external_body]
pub(crate) fn root(doc: &toml_edit::DocumentMut) -> (r: &toml_edit::Item)
    ensures
        item_nodes(*r) == doc_nodes(*doc),
{
    doc.as_item()
}

/// `toml_edit::DocumentMut::as_item_mut`: what is done to the root is done to
/// the document, and what stands behind the last table stays.
#[verifier::external_body]
pub(crate) fn root_mut(doc: &mut toml_edit::DocumentMut) -> (r: &mut toml_edit::Item)
    ensures
        item_nodes(*r) == doc_nodes(*old(doc)),
        doc_nodes(*final(doc)) == item_nodes(*final(r)),
        doc_trailing(*final(doc)) == doc_trailing(*old(doc)),
{
    doc.as_item_mut()
}

/// The kind of a `toml_edit::Item`, with the keys of `Table::iter`, the length
/// of `Array::len`, and the value of a string or boolean.
#[verifier::external_body]
pub(crate) fn node(item: &toml_edit::Item) -> (r: TomlNode)
    ensures
        item_nodes(*item).contains_key(seq![]) ==> r.shows(
            item_nodes(*item)[seq![]].holds,
        ),
{
    match item {
        toml_edit::Item::Value(toml_edit::Value::String(s)) => TomlNode::Text(s.value().to_owned()),
        toml_edit::Item::Value(toml_edit::Value::Boolean(b)) => TomlNode::Bool(*b.value()),
        toml_edit::Item::Value(toml_edit::Value::Array(a)) => TomlNode::Array(a.len()),
        toml_edit::Item::Value(toml_edit::Value::InlineTable(_)) => TomlNode::Inline,
        toml_edit::Item::Table(t) => TomlNode::Table(
            t.iter().map(|(k, _)| k.to_owned()).collect(),
        ),
        _ => TomlNode::Other,
    }
}

/// `toml_edit::Item::get` with a key: the value of the key in a table or
/// inline table.
#[verifier::external_body]
pub(crate) fn child<'a>(item: &'a toml_edit::Item, key: &str) -> (r: Option<&'a toml_edit::Item>)
    ensures
        r is Some <==> item_nodes(*item).contains_key(seq![StepView::Key(key@)]),
        r matches Some(c) ==> item_nodes(*c) == under(
            item_nodes(*item),
            seq![StepView::Key(key@)],
        ),
{
    item.get(key)
}

/// `toml_edit::Item::get` with an index: the element of an array, unless it is
/// an empty placeholder.
#[verifier::external_body]
pub(crate) fn element<'a>(item: &'a toml_edit::Item, i: usize) -> (r: Option<&'a toml_edit::Item>)
    ensures
        r is Some <==> item_nodes(*item).contains_key(seq![StepView::Index(i as int)]),
        r matches Some(c) ==> item_nodes(*c) == under(
            item_nodes(*item),
            seq![StepView::Index(i as int)],
        ),
{
    item.get(i).filter(|v| !v.is_none())
}

/// `get_mut` of `toml_edit`'s tables and inline tables: the value of an
/// existing key. As long as something still stands there, what is done to it
/// is done below the key and nowhere else.
#[verifier::external_body]
pub(crate) fn child_mut<'a>(item: &'a mut toml_edit::Item, key: &str) -> (r: Option<
    &'a mut toml_edit::Item,
>)
    ensures
        r is Some <==> item_nodes(*old(item)).contains_key(seq![StepView::Key(key@)]),
        r is None ==> item_nodes(*final(item)) == item_nodes(*old(item)) && nothing_below(
            item_nodes(*old(item)),
            StepView::Key(key@),
        ),
        r is Some ==> item_nodes(*r->0) == under(
            item_nodes(*old(item)),
            seq![StepView::Key(key@)],
        ),
        r is Some && item_nodes(*final(r->0)).contains_key(seq![]) ==> item_nodes(*final(item))
            == with_under(
            item_nodes(*old(item)),
            seq![StepView::Key(key@)],
            item_nodes(*final(r->0)),
        ),
{
    item.as_table_like_mut()?.get_mut(key).filter(|v| !v.is_none())
}

/// `toml_edit::Item::get_mut` with an index: the element of an array, unless it
/// is an empty placeholder. As long as something still stands there, what is
/// done to it is done below the index and nowhere else.
#[verifier::external_body]
pub(crate) fn element_mut<'a>(item: &'a mut toml_edit::Item, i: usize) -> (r: Option<
    &'a mut toml_edit::Item,
>)
    ensures
        r is Some <==> item_nodes(*old(item)).contains_key(seq![StepView::Index(i as int)]),
        r is None ==> item_nodes(*final(item)) == item_nodes(*old(item)) && nothing_below(
            item_nodes(*old(item)),
            StepView::Index(i as int),
        ),
        r is Some ==> item_nodes(*r->0) == under(
            item_nodes(*old(item)),
            seq![StepView::Index(i as int)],
        ),
        r is Some && item_nodes(*final(r->0)).contains_key(seq![]) ==> item_nodes(*final(item))
            == with_under(
            item_nodes(*old(item)),
            seq![StepView::Index(i as int)],
            item_nodes(*final(r->0)),
        ),
{
    item.get_mut(i).filter(|v| !v.is_none())
}

/// Assignment of `toml_edit::value`: a string without surrounding white space
/// or comments takes the place of the item.
#[verifier::external_body]
pub(crate) fn overwrite(item: &mut toml_edit::Item, new: String)
    ensures
        item_nodes(*final(item)) == text_node(new@, bare_layout()),
{
    *item = toml_edit::value(new);
}

/// The `toml_edit::Formatted` of an item that is a string: what is done to it
/// is done to the item.
#[verifier::external_body]
pub(crate) fn string_mut<'a>(item: &'a mut toml_edit::Item) -> (r: Option<
    &'a mut toml_edit::Formatted<String>,
>)
    ensures
        r is Some <==> as_text(item_nodes(*old(item))) is Some,
        r is None ==> item_nodes(*final(item)) == item_nodes(*old(item)),
        r is Some ==> item_nodes(*old(item)) == text_node(
            string_value(*r->0),
            string_layout(*r->0),
        ),
        r is Some ==> item_nodes(*final(item)) == text_node(
            string_value(*final(r->0)),
            string_layout(*final(r->0)),
        ),
{
    match item {
        toml_edit::Item::Value(toml_edit::Value::String(s)) => Some(s),
        _ => None,
    }
}

/// `toml_edit::Formatted::decor`, cloned: what stands around a string.
#[verifier::external_body]
pub(crate) fn read_decor(s: &toml_edit::Formatted<String>) -> (r: toml_edit::Decor)
    ensures
        decor_layout(r) == unwritten(string_layout(*s)),
{
    s.decor().clone()
}

/// `toml_edit::Formatted::new`: a string without surroundings.
#[verifier::external_body]
pub(crate) fn new_string(value: String) -> (r: toml_edit::Formatted<String>)
    ensures
        string_value(r) == value@,
        string_layout(r) == bare_layout(),
{
    toml_edit::Formatted::new(value)
}

/// Assignment through `toml_edit::Formatted::decor_mut`: the string has these
/// surroundings, and its value stays, as it is written.
#[verifier::external_body]
pub(crate) fn write_decor(s: &mut toml_edit::Formatted<String>, decor: toml_edit::Decor)
    ensures
        string_layout(*final(s)) == (LayoutView {
            written: string_layout(*old(s)).written,
            ..decor_layout(decor)
        }),
        string_value(*final(s)) == string_value(*old(s)),
{
    *s.decor_mut() = decor;
}

/// Replaces a string; the white space and comments around it stay.
pub fn replace_string_preserving_decor(s: &mut toml_edit::Formatted<String>, new: String)
    ensures
        string_value(*final(s)) == new@,
        string_layout(*final(s)) == unwritten(string_layout(*old(s))),
{
    let decor: toml_edit::Decor = read_decor(s);
    let mut next: toml_edit::Formatted<String> = new_string(new);
    write_decor(&mut next, decor);
    *s = next;
}

/// Assignment through `toml_edit::Table`'s mutable index at a new key: the key
/// holds the string, and is among the keys.
#[verifier::external_body]
pub(crate) fn put_key(item: &mut toml_edit::Item, key: &str, new: String)
    requires
        as_table(item_nodes(*old(item))) is Some,
        !item_nodes(*old(item)).contains_key(seq![StepView::Key(key@)]),
    ensures
        keyed(item_nodes(*old(item)), item_nodes(*final(item)), key@, new@),
{
    if let toml_edit::Item::Table(t) = item {
        t[key] = toml_edit::value(new);
    }
}

/// `after` is the table `before` with a string put at a new key, which takes
/// some position among the keys. What surrounds the table stays.
pub open spec fn keyed(
    before: Map<Seq<StepView>, PlaceView>,
    after: Map<Seq<StepView>, PlaceView>,
    key: Seq<char>,
    s: Seq<char>,
) -> bool {
    exists|keys: Seq<Seq<char>>, k: int, inside: Seq<Seq<char>>|
        as_table(before) == Some(keys) && 0 <= k <= keys.len() && after
            == #[trigger] with_new_key(before, keys.insert(k, key), inside, key, s)
}

/// The table `before` with other keys and a string at one of them.
pub open spec fn with_new_key(
    before: Map<Seq<StepView>, PlaceView>,
    keys: Seq<Seq<char>>,
    inside: Seq<Seq<char>>,
    key: Seq<char>,
    s: Seq<char>,
) -> Map<Seq<StepView>, PlaceView> {
    with_under(
        before.insert(
            seq![],
            PlaceView {
                holds: NodeView::Table(keys),
                layout: LayoutView { inside, ..before[seq![]].layout },
            },
        ),
        seq![StepView::Key(key)],
        text_node(s, bare_layout()),
    )
}

// ---------------------------------------------------------------------------
// Walking
// ---------------------------------------------------------------------------

/// The value of a key, if a table stands there.
pub(crate) fn child_table<'a>(item: &'a toml_edit::Item, key: &str) -> (r: Option<
    (&'a toml_edit::Item, Vec<String>),
>)
    ensures
        match r {
            Some(t) => item_nodes(*t.0) == at_key(item_nodes(*item), key@) && as_table(
                at_key(item_nodes(*item), key@),
            ) == Some(text::string_views(t.1@)),
            None => as_table(at_key(item_nodes(*item), key@)) is None,
        },
{
    proof {
        lemma_at(item_nodes(*item), StepView::Key(key@));
    }
    match child(item, key) {
        Some(c) => match node(c) {
            TomlNode::Table(keys) => Some((c, keys)),
            _ => None,
        },
        None => None,
    }
}

/// The value of a key, if an array stands there, with its length.
pub(crate) fn child_array<'a>(item: &'a toml_edit::Item, key: &str) -> (r: Option<
    (&'a toml_edit::Item, usize),
>)
    ensures
        match r {
            Some(t) => item_nodes(*t.0) == at_key(item_nodes(*item), key@) && as_array(
                at_key(item_nodes(*item), key@),
            ) == Some(t.1 as nat),
            None => as_array(at_key(item_nodes(*item), key@)) is None,
        },
{
    proof {
        lemma_at(item_nodes(*item), StepView::Key(key@));
    }
    match child(item, key) {
        Some(c) => match node(c) {
            TomlNode::Array(n) => Some((c, n)),
            _ => None,
        },
        None => None,
    }
}

/// The string at a key.
pub(crate) fn child_text(item: &toml_edit::Item, key: &str) -> (r: Option<String>)
    ensures
        (match r {
            Some(s) => Some(s@),
            None => None,
        }) == as_text(at_key(item_nodes(*item), key@)),
{
    proof {
        lemma_at(item_nodes(*item), StepView::Key(key@));
    }
    match child(item, key) {
        Some(c) => match node(c) {
            TomlNode::Text(s) => Some(s),
            _ => None,
        },
        None => None,
    }
}

/// The string at an index.
pub(crate) fn element_text(item: &toml_edit::Item, i: usize) -> (r: Option<String>)
    ensures
        (match r {
            Some(s) => Some(s@),
            None => None,
        }) == as_text(at_index(item_nodes(*item), i as int)),
{
    proof {
        lemma_at(item_nodes(*item), StepView::Index(i as int));
    }
    match element(item, i) {
        Some(c) => match node(c) {
            TomlNode::Text(s) => Some(s),
            _ => None,
        },
        None => None,
    }
}

/// Something stands below a step exactly if the step leads somewhere.
pub proof fn lemma_at(nodes: Map<Seq<StepView>, PlaceView>, step: StepView)
    ensures
        present(under(nodes, seq![step])) == nodes.contains_key(seq![step]),
{
    assert(seq![step] + Seq::<StepView>::empty() =~= seq![step]);
}

/// Replacing below a path step by step is replacing below the whole path.
proof fn lemma_with_under_step(
    nodes: Map<Seq<StepView>, PlaceView>,
    step: StepView,
    path: Seq<StepView>,
    sub: Map<Seq<StepView>, PlaceView>,
)
    ensures
        with_under(nodes, seq![step], with_under(under(nodes, seq![step]), path, sub))
            == with_under(nodes, seq![step] + path, sub),
{
    let whole = seq![step] + path;
    let a = with_under(nodes, seq![step], with_under(under(nodes, seq![step]), path, sub));
    let b = with_under(nodes, whole, sub);
    assert forall|p: Seq<StepView>| #[trigger] a.contains_key(p) == b.contains_key(p) && (
    a.contains_key(p) ==> a[p] == b[p]) by {
        if reaches(seq![step], p) {
            let q = p.skip(1);
            assert(seq![step] + q =~= p) by {
                assert(p.take(1) =~= seq![step]);
                assert(p[0] == p.take(1)[0]);
            }
            assert(reaches(path, q) == reaches(whole, p)) by {
                if reaches(path, q) {
                    assert(p.take(whole.len() as int) =~= seq![step] + q.take(path.len() as int));
                }
                if reaches(whole, p) {
                    assert(q.take(path.len() as int) =~= p.take(whole.len() as int).skip(1));
                    assert(whole.skip(1) =~= path);
                }
            }
            if reaches(whole, p) {
                assert(q.skip(path.len() as int) =~= p.skip(whole.len() as int));
            }
        } else {
            if reaches(whole, p) {
                assert(p.take(1) =~= p.take(whole.len() as int).take(1));
                assert(whole.take(1) =~= seq![step]);
            }
        }
    }
    assert(a =~= b);
}

/// A string put at a path stands there, between what stood around the string
/// before it, and everything that does not lie at or below the path is as
/// before.
pub proof fn law_put_text_is_local(
    nodes: Map<Seq<StepView>, PlaceView>,
    path: Seq<StepView>,
    s: Seq<char>,
    p: Seq<StepView>,
)
    ensures
        as_text(under(with_text(nodes, path, s), path)) == Some(s),
        as_text(under(nodes, path)) is Some ==> with_text(nodes, path, s)[path].layout
            == unwritten(nodes[path].layout),
        !reaches(path, p) ==> with_text(nodes, path, s).contains_key(p) == nodes.contains_key(p)
            && (nodes.contains_key(p) ==> with_text(nodes, path, s)[p] == nodes[p]),
{
    assert(path.take(path.len() as int) =~= path);
    assert(path.skip(path.len() as int) =~= seq![]);
    assert(path + Seq::<StepView>::empty() =~= path);
}

/// A path in two parts leads where the whole path leads.
pub proof fn lemma_under_under(
    nodes: Map<Seq<StepView>, PlaceView>,
    a: Seq<StepView>,
    b: Seq<StepView>,
)
    ensures
        under(under(nodes, a), b) == under(nodes, a + b),
{
    assert forall|q: Seq<StepView>| a + (b + q) == (a + b) + q by {
        assert(a + (b + q) =~= (a + b) + q);
    }
    assert(under(under(nodes, a), b) =~= under(nodes, a + b));
}

/// A string put below a path is a string put into what stands there.
pub proof fn lemma_text_below(
    nodes: Map<Seq<StepView>, PlaceView>,
    a: Seq<StepView>,
    b: Seq<StepView>,
    s: Seq<char>,
)
    ensures
        under(with_text(nodes, a + b, s), a) == with_text(
            under(nodes, a),
            b,
            s,
        ),
{
    let x = under(with_text(nodes, a + b, s), a);
    let y = with_text(under(nodes, a), b, s);
    assert forall|q: Seq<StepView>| #[trigger] x.contains_key(q) == y.contains_key(q) && (
    x.contains_key(q) ==> x[q] == y[q]) by {
        let p = a + q;
        assert(reaches(a + b, p) == reaches(b, q)) by {
            if reaches(a + b, p) {
                assert(q.take(b.len() as int) =~= p.take((a + b).len() as int).skip(
                    a.len() as int,
                ));
                assert((a + b).skip(a.len() as int) =~= b);
            }
            if reaches(b, q) {
                assert(p.take((a + b).len() as int) =~= a + q.take(b.len() as int));
            }
        }
        if reaches(b, q) {
            assert(p.skip((a + b).len() as int) =~= q.skip(b.len() as int));
        }
    }
    assert(x =~= y);
}

/// A string put elsewhere leaves what stands at a path as it is.
pub proof fn lemma_text_elsewhere(
    nodes: Map<Seq<StepView>, PlaceView>,
    place: Seq<StepView>,
    a: Seq<StepView>,
    i: int,
    s: Seq<char>,
)
    requires
        0 <= i < place.len(),
        i < a.len(),
        place[i] != a[i],
    ensures
        under(with_text(nodes, place, s), a) == under(nodes, a),
{
    let x = under(with_text(nodes, place, s), a);
    let y = under(nodes, a);
    assert forall|q: Seq<StepView>| #[trigger] x.contains_key(q) == y.contains_key(q) && (
    x.contains_key(q) ==> x[q] == y[q]) by {
        let p = a + q;
        if reaches(place, p) {
            assert(p.take(place.len() as int)[i] == p[i]);
            assert(p[i] == a[i]);
        }
    }
    assert(x =~= y);
}

/// What stands at a path that a string was put below is what stood there.
pub proof fn lemma_node_above(
    nodes: Map<Seq<StepView>, PlaceView>,
    place: Seq<StepView>,
    s: Seq<char>,
)
    requires
        place.len() > 0,
    ensures
        present(with_text(nodes, place, s)) == present(nodes),
        present(nodes) ==> with_text(nodes, place, s)[seq![]] == nodes[seq![]],
{
    assert(!reaches(place, seq![]));
}

/// Putting a string at a place that exists leaves the keys in order.
pub proof fn lemma_text_keeps_listed(
    nodes: Map<Seq<StepView>, PlaceView>,
    path: Seq<StepView>,
    s: Seq<char>,
)
    requires
        listed(nodes),
        nodes.contains_key(path),
    ensures
        listed(with_text(nodes, path, s)),
{
    let after = with_text(nodes, path, s);
    assert forall|p: Seq<StepView>, key: Seq<char>|
        after.contains_key(p) implies (keys_of(after[p].holds) matches Some(keys) ==> (
    keys.contains(key) <==> #[trigger] after.contains_key(p.push(StepView::Key(key))))) by {
        let q = p.push(StepView::Key(key));
        if reaches(path, p) {
            assert(p.skip(path.len() as int) =~= seq![]);
        } else if reaches(path, q) {
            assert(q.take(path.len() as int) =~= path);
            if path.len() < q.len() {
                assert(p.take(path.len() as int) =~= q.take(path.len() as int));
            }
            assert(q.take(q.len() as int) =~= q);
            assert(q == path);
            assert(q.skip(path.len() as int) =~= seq![]);
        }
    }
}

/// Putting a string at a new key of a table leaves the keys in order.
pub proof fn lemma_keyed_keeps_listed(
    before: Map<Seq<StepView>, PlaceView>,
    after: Map<Seq<StepView>, PlaceView>,
    path: Seq<StepView>,
    key: Seq<char>,
    s: Seq<char>,
)
    requires
        listed(before),
        before.contains_key(path),
        keyed_at(before, after, path, key, s),
    ensures
        listed(after),
{
    let table = under(before, path);
    let sub = choose|sub: Map<Seq<StepView>, PlaceView>|
        keyed(table, sub, key, s) && after == #[trigger] with_under(before, path, sub);
    let (keys, k, inside) = choose|keys: Seq<Seq<char>>, k: int, inside: Seq<Seq<char>>|
        as_table(table) == Some(keys) && 0 <= k <= keys.len() && sub == #[trigger] with_new_key(
            table,
            keys.insert(k, key),
            inside,
            key,
            s,
        );
    let all = keys.insert(k, key);
    let step = seq![StepView::Key(key)];
    assert(path + Seq::<StepView>::empty() =~= path);
    assert forall|x: Seq<char>| all.contains(x) <==> x == key || keys.contains(x) by {
        if keys.contains(x) {
            let j = keys.index_of(x);
            assert(all[if j < k { j } else { j + 1 }] == x);
        }
        if all.contains(x) {
            let j = all.index_of(x);
            if j < k {
                assert(keys[j] == x);
            } else if j > k {
                assert(keys[j - 1] == x);
            }
        }
        assert(all[k] == key);
    }
    assert forall|p: Seq<StepView>, x: Seq<char>|
        after.contains_key(p) implies (keys_of(after[p].holds) matches Some(names) ==> (
    names.contains(x) <==> #[trigger] after.contains_key(p.push(StepView::Key(x))))) by {
        let q = p.push(StepView::Key(x));
        if reaches(path, p) {
            let r = p.skip(path.len() as int);
            assert(path + r =~= p);
            assert(q.skip(path.len() as int) =~= r.push(StepView::Key(x)));
            assert(q.take(path.len() as int) =~= p.take(path.len() as int));
            assert(path + r.push(StepView::Key(x)) =~= q);
            let rx = r.push(StepView::Key(x));
            if reaches(step, r) {
                assert(r.skip(1) =~= seq![]);
            } else if r.len() == 0 {
                assert(r =~= seq![]);
                assert(reaches(step, rx) == (x == key)) by {
                    assert(rx.take(1) =~= rx);
                    assert(rx[0] == StepView::Key(x));
                    assert(step[0] == StepView::Key(key));
                    if x == key {
                        assert(rx =~= step);
                    }
                }
                if x == key {
                    assert(rx.skip(1) =~= seq![]);
                }
            } else {
                assert(rx.take(1) =~= r.take(1));
            }
        } else if reaches(path, q) {
            assert(q.take(path.len() as int) =~= path);
            if path.len() < q.len() {
                assert(p.take(path.len() as int) =~= q.take(path.len() as int));
            }
            assert(q.take(q.len() as int) =~= q);
            assert(q == path);
            assert(q.skip(path.len() as int) =~= seq![]);
            assert(!reaches(step, seq![]));
        }
    }
}

/// Puts a string at a place. The white space and comments around a string that
/// already stands there stay.
pub(crate) fn put_text(
    item: &mut toml_edit::Item,
    path: &[TomlStep],
    from: usize,
    new: String,
)
    requires
        from <= path@.len(),
        item_nodes(*old(item)).contains_key(path_view(path@.skip(from as int))),
    ensures
        item_nodes(*final(item)) == with_text(
            item_nodes(*old(item)),
            path_view(path@.skip(from as int)),
            new@,
        ),
    decreases path@.len() - from,
{
    let ghost rest = path_view(path@.skip(from as int));
    let ghost nodes = item_nodes(*old(item));
    if from == path.len() {
        assert(rest =~= seq![]);
        proof {
            assert forall|p: Seq<StepView>| reaches(rest, p) && p.skip(0) == p by {
                assert(p.take(0) =~= rest);
                assert(p.skip(0) =~= p);
            }
            lemma_under_nothing(nodes);
            assert(with_text(nodes, rest, new@) =~= text_node(new@, kept_layout(nodes)));
        }
        let is_text: bool = match node(item) {
            TomlNode::Text(_) => true,
            _ => false,
        };
        if is_text {
            match string_mut(item) {
                Some(s) => replace_string_preserving_decor(s, new),
                None => {},
            }
        } else {
            overwrite(item, new);
        }
        return;
    }
    let ghost step = path@[from as int]@;
    let ghost tail = path_view(path@.skip(from + 1));
    proof {
        assert(rest =~= seq![step] + tail);
        lemma_under_step(nodes, step, tail);
        lemma_with_under_step(
            nodes,
            step,
            tail,
            text_node(new@, kept_layout(under(nodes, rest))),
        );
        law_put_text_is_local(under(nodes, seq![step]), tail, new@, seq![]);
        assert(under(nodes, seq![step]).contains_key(tail));
        assert(seq![step] + Seq::<StepView>::empty() =~= seq![step]);
        assert(rest[0] == step);
        if tail.len() == 0 {
            assert(tail =~= seq![]);
        }
    }
    match &path[from] {
        TomlStep::Key(key) => {
            match child_mut(item, key.as_str()) {
                Some(c) => put_text(c, path, from + 1, new),
                None => {},
            }
        },
        TomlStep::Index(i) => {
            match element_mut(item, *i) {
                Some(c) => put_text(c, path, from + 1, new),
                None => {},
            }
        },
    }
}

/// Puts a string at a new key of the table at a place.
pub(crate) fn put_key_at(
    item: &mut toml_edit::Item,
    path: &[TomlStep],
    from: usize,
    key: &str,
    new: String,
)
    requires
        from <= path@.len(),
        as_table(under(item_nodes(*old(item)), path_view(path@.skip(from as int)))) is Some,
        !under(item_nodes(*old(item)), path_view(path@.skip(from as int))).contains_key(
            seq![StepView::Key(key@)],
        ),
    ensures
        keyed_at(
            item_nodes(*old(item)),
            item_nodes(*final(item)),
            path_view(path@.skip(from as int)),
            key@,
            new@,
        ),
    decreases path@.len() - from,
{
    let ghost rest = path_view(path@.skip(from as int));
    let ghost nodes = item_nodes(*old(item));
    if from == path.len() {
        proof {
            assert(rest =~= seq![]);
            lemma_under_nothing(nodes);
        }
        put_key(item, key, new);
        proof {
            let sub = item_nodes(*item);
            assert forall|p: Seq<StepView>| reaches(rest, p) && p.skip(0) == p by {
                assert(p.take(0) =~= rest);
                assert(p.skip(0) =~= p);
            }
            assert(with_under(nodes, rest, sub) =~= sub);
        }
        return;
    }
    let ghost step = path@[from as int]@;
    let ghost tail = path_view(path@.skip(from + 1));
    proof {
        assert(rest =~= seq![step] + tail);
        assert(rest[0] == step);
        lemma_under_step(nodes, step, tail);
        assert(rest + Seq::<StepView>::empty() =~= rest);
        assert forall|sub: Map<Seq<StepView>, PlaceView>| #[trigger]
            with_under(nodes, seq![step], with_under(under(nodes, seq![step]), tail, sub))
                == with_under(nodes, rest, sub) by {
            lemma_with_under_step(nodes, step, tail, sub);
        }
        lemma_at(nodes, step);
    }
    match &path[from] {
        TomlStep::Key(k) => {
            match child_mut(item, k.as_str()) {
                Some(c) => {
                    let ghost inner = item_nodes(*c);
                    put_key_at(c, path, from + 1, key, new);
                    proof {
                        lemma_keyed_present(inner, item_nodes(*c), tail, key@, new@);
                    }
                },
                None => {},
            }
        },
        TomlStep::Index(i) => {
            match element_mut(item, *i) {
                Some(c) => {
                    let ghost inner = item_nodes(*c);
                    put_key_at(c, path, from + 1, key, new);
                    proof {
                        lemma_keyed_present(inner, item_nodes(*c), tail, key@, new@);
                    }
                },
                None => {},
            }
        },
    }
}

/// `after` is `before` with a string put at a new key of the table at `path`.
pub open spec fn keyed_at(
    before: Map<Seq<StepView>, PlaceView>,
    after: Map<Seq<StepView>, PlaceView>,
    path: Seq<StepView>,
    key: Seq<char>,
    s: Seq<char>,
) -> bool {
    exists|sub: Map<Seq<StepView>, PlaceView>|
        keyed(under(before, path), sub, key, s) && after == #[trigger] with_under(
            before,
            path,
            sub,
        )
}

proof fn lemma_under_nothing(nodes: Map<Seq<StepView>, PlaceView>)
    ensures
        under(nodes, seq![]) == nodes,
{
    assert forall|p: Seq<StepView>| Seq::<StepView>::empty() + p == p by {
        assert(Seq::<StepView>::empty() + p =~= p);
    }
    assert(under(nodes, seq![]) =~= nodes);
}

proof fn lemma_under_step(
    nodes: Map<Seq<StepView>, PlaceView>,
    step: StepView,
    path: Seq<StepView>,
)
    ensures
        under(under(nodes, seq![step]), path) == under(nodes, seq![step] + path),
{
    assert forall|p: Seq<StepView>| seq![step] + (path + p) == seq![step] + path + p by {
        assert(seq![step] + (path + p) =~= seq![step] + path + p);
    }
    assert(under(under(nodes, seq![step]), path) =~= under(nodes, seq![step] + path));
}

/// A place is still there after a string has been put at a key below it.
proof fn lemma_keyed_present(
    before: Map<Seq<StepView>, PlaceView>,
    after: Map<Seq<StepView>, PlaceView>,
    path: Seq<StepView>,
    key: Seq<char>,
    s: Seq<char>,
)
    requires
        keyed_at(before, after, path, key, s),
        present(before),
        present(under(before, path)),
    ensures
        present(after),
{
    let sub = choose|sub: Map<Seq<StepView>, PlaceView>|
        keyed(under(before, path), sub, key, s) && after == #[trigger] with_under(
            before,
            path,
            sub,
        );
    let none = Seq::<StepView>::empty();
    if reaches(path, none) {
        assert(path =~= none);
        assert(none.skip(0) =~= none);
        assert(!reaches(seq![StepView::Key(key)], none));
    }
}

} // verus!
