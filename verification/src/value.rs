//! The data document that a template is rendered against.
use crate::text::{chars_of, find, find_from, lemma_find_from, string_of_range};
use vstd::prelude::*;

verus! {

/// A node of the data document.
#[derive(Debug, PartialEq)]
pub enum Data {
    Null,
    Bool(bool),
    /// A number, held as its canonical decimal text.
    Number(String),
    Text(String),
    Sequence(Vec<Data>),
    /// Key and value pairs, in the order of the document.
    Mapping(Vec<(Data, Data)>),
    /// A value under a YAML tag.
    Tagged(Box<Data>),
}

/// The mathematical model of a [`Data`] tree.
pub enum DataView {
    Null,
    Bool(bool),
    Number(Seq<char>),
    Text(Seq<char>),
    List(Seq<DataView>),
    Dict(Seq<(DataView, DataView)>),
    Tagged(Box<DataView>),
}

/// The model of a data tree.
pub open spec fn data_view(value: Data) -> DataView
    decreases value,
{
    match value {
        Data::Null => DataView::Null,
        Data::Bool(b) => DataView::Bool(b),
        Data::Number(n) => DataView::Number(n@),
        Data::Text(s) => DataView::Text(s@),
        Data::Sequence(items) => DataView::List(
            Seq::new(
                items@.len(),
                |i: int|
                    if 0 <= i < items@.len() {
                        data_view(items@[i])
                    } else {
                        DataView::Null
                    },
            ),
        ),
        Data::Mapping(entries) => DataView::Dict(
            Seq::new(
                entries@.len(),
                |i: int|
                    if 0 <= i < entries@.len() {
                        (data_view(entries@[i].0), data_view(entries@[i].1))
                    } else {
                        (DataView::Null, DataView::Null)
                    },
            ),
        ),
        Data::Tagged(inner) => DataView::Tagged(Box::new(data_view(*inner))),
    }
}

impl View for Data {
    type V = DataView;

    open spec fn view(&self) -> DataView {
        data_view(*self)
    }
}

/// The models of a stack of data frames.
pub open spec fn stack_views(stack: Seq<&Data>) -> Seq<DataView> {
    Seq::new(stack.len(), |i: int| data_view(*stack[i]))
}

/// The value under any YAML tags.
pub open spec fn untagged(d: DataView) -> DataView
    decreases d,
{
    match d {
        DataView::Tagged(inner) => untagged(*inner),
        _ => d,
    }
}

/// The value of the first entry at or after `i` whose key is the text `key`.
pub open spec fn entry_from(entries: Seq<(DataView, DataView)>, key: Seq<char>, i: int) -> Option<
    DataView,
>
    decreases entries.len() - i,
{
    if i < 0 || i >= entries.len() {
        None
    } else if entries[i].0 == DataView::Text(key) {
        Some(entries[i].1)
    } else {
        entry_from(entries, key, i + 1)
    }
}

/// The value that `d`, taken as a mapping, holds under `key`.
pub open spec fn data_get(d: DataView, key: Seq<char>) -> Option<DataView> {
    match untagged(d) {
        DataView::Dict(entries) => entry_from(entries, key, 0),
        _ => None,
    }
}

/// The separator of the segments of a dotted name.
pub open spec fn dot() -> Seq<char> {
    seq!['.']
}

/// The value reached from `d` by taking each segment of `path[start..]` as a
/// mapping key; `None` as soon as one is missing.
pub open spec fn descend_from(d: DataView, path: Seq<char>, start: int) -> Option<DataView>
    decreases path.len() - start,
{
    if start < 0 || start > path.len() {
        None
    } else {
        match find_from(path, dot(), start) {
            None => data_get(d, path.subrange(start, path.len() as int)),
            Some(p) => {
                proof {
                    lemma_find_from(path, dot(), start);
                }
                match data_get(d, path.subrange(start, p)) {
                    None => None,
                    Some(next) => descend_from(next, path, p + 1),
                }
            },
        }
    }
}

/// The value under `key` in the innermost of the frames `stack[..upto]` that
/// holds one.
pub open spec fn find_in_stack(stack: Seq<DataView>, key: Seq<char>, upto: int) -> Option<DataView>
    decreases upto,
{
    if upto <= 0 || upto > stack.len() {
        None
    } else {
        match data_get(stack[upto - 1], key) {
            Some(v) => Some(v),
            None => find_in_stack(stack, key, upto - 1),
        }
    }
}

/// The value that a name other than `.` resolves to.
///
/// A frame that holds the whole name as a key decides. Failing that, the part
/// before the first dot is looked up through the frames, innermost first, and
/// the remaining segments are followed from the value found.
pub open spec fn lookup_name(stack: Seq<DataView>, name: Seq<char>) -> Option<DataView> {
    match find_in_stack(stack, name, stack.len() as int) {
        Some(v) => Some(v),
        None => match find_from(name, dot(), 0) {
            None => None,
            Some(p) => match find_in_stack(stack, name.take(p), stack.len() as int) {
                None => None,
                Some(v) => descend_from(v, name, p + 1),
            },
        },
    }
}

/// The value that `.` resolves to: what the innermost frame holds under the
/// name of the innermost open section, else that frame itself.
pub open spec fn resolve_dot(stack: Seq<DataView>, path: Seq<Seq<char>>) -> Option<DataView> {
    if stack.len() == 0 {
        None
    } else if path.len() > 0 {
        match data_get(stack.last(), path.last()) {
            Some(v) => Some(v),
            None => Some(stack.last()),
        }
    } else {
        Some(stack.last())
    }
}

/// The value that `name` resolves to in a context; `None` is a miss.
pub open spec fn resolve(stack: Seq<DataView>, path: Seq<Seq<char>>, name: Seq<char>) -> Option<
    DataView,
> {
    if name.len() == 0 {
        None
    } else if name == dot() {
        resolve_dot(stack, path)
    } else {
        lookup_name(stack, name)
    }
}

/// Null, false, the empty text, the empty sequence and the empty mapping.
pub open spec fn falsy(d: DataView) -> bool {
    match d {
        DataView::Null => true,
        DataView::Bool(b) => !b,
        DataView::Text(s) => s.len() == 0,
        DataView::List(items) => items.len() == 0,
        DataView::Dict(entries) => entries.len() == 0,
        _ => false,
    }
}

/// What a value reads as in the output: a number its decimal text, a text
/// itself, `true` the word `true`, anything else nothing.
pub open spec fn to_text(d: DataView) -> Seq<char> {
    match d {
        DataView::Number(n) => n,
        DataView::Text(s) => s,
        DataView::Bool(b) => if b {
            "true"@
        } else {
            Seq::empty()
        },
        _ => Seq::empty(),
    }
}

/// The model of a sequence holds the models of its elements.
pub proof fn lemma_sequence_view(value: Data)
    requires
        value is Sequence,
    ensures
        value@ is List,
        value@->List_0.len() == value->Sequence_0@.len(),
        forall|i: int|
            0 <= i < value->Sequence_0@.len() ==> #[trigger] value@->List_0[i]
                == value->Sequence_0@[i]@,
{
}

/// The model of a mapping holds the models of its entries.
pub proof fn lemma_mapping_view(value: Data)
    requires
        value is Mapping,
    ensures
        value@ is Dict,
        value@->Dict_0.len() == value->Mapping_0@.len(),
        forall|i: int|
            0 <= i < value->Mapping_0@.len() ==> #[trigger] value@->Dict_0[i] == (
                value->Mapping_0@[i].0@,
                value->Mapping_0@[i].1@,
            ),
{
}

impl Data {
    /// The value under any YAML tags.
    pub fn untag(&self) -> (r: &Data)
        ensures
            r@ == untagged(self@),
            !(r is Tagged),
        decreases self,
    {
        match self {
            Data::Tagged(inner) => inner.untag(),
            _ => self,
        }
    }

    /// The value that this one, taken as a mapping, holds under `key`.
    pub fn get(&self, key: &str) -> (r: Option<&Data>)
        ensures
            match r {
                Some(v) => data_get(self@, key@) == Some(v@),
                None => data_get(self@, key@) is None,
            },
    {
        let inner = self.untag();
        match inner {
            Data::Mapping(entries) => {
                let wanted = key.to_owned();
                proof {
                    lemma_mapping_view(*inner);
                }
                let ghost models = inner@->Dict_0;
                let mut i: usize = 0;
                while i < entries.len()
                    invariant
                        i <= entries.len(),
                        wanted@ == key@,
                        untagged(self@) == DataView::Dict(models),
                        models.len() == entries@.len(),
                        forall|j: int|
                            0 <= j < entries@.len() ==> #[trigger] models[j] == (
                                entries@[j].0@,
                                entries@[j].1@,
                            ),
                        entry_from(models, key@, 0) == entry_from(models, key@, i as int),
                    decreases entries.len() - i,
                {
                    match &entries[i].0 {
                        Data::Text(k) => {
                            assert(entries@[i as int].0@ == DataView::Text(k@));
                            if *k == wanted {
                                return Some(&entries[i].1);
                            }
                        },
                        _ => {},
                    }
                    i += 1;
                }
                None
            },
            _ => None,
        }
    }
}

/// Whether a section of this value is skipped: null, false, the empty text,
/// the empty sequence and the empty mapping.
pub fn is_value_falsy(value: &Data) -> (r: bool)
    ensures
        r == falsy(value@),
{
    match value {
        Data::Null => true,
        Data::Bool(b) => !*b,
        Data::Text(s) => s.as_str().is_empty(),
        Data::Sequence(items) => {
            proof {
                lemma_sequence_view(*value);
            }
            items.len() == 0
        },
        Data::Mapping(entries) => {
            proof {
                lemma_mapping_view(*value);
            }
            entries.len() == 0
        },
        _ => false,
    }
}

/// The opposite of [`is_value_falsy`].
pub fn is_value_truthy(value: &Data) -> (r: bool)
    ensures
        r == !falsy(value@),
{
    !is_value_falsy(value)
}

/// What a value reads as in the output.
pub fn value_to_string(value: &Data) -> (r: String)
    ensures
        r@ == to_text(value@),
{
    match value {
        Data::Number(n) => n.clone(),
        Data::Text(s) => s.clone(),
        Data::Bool(b) => {
            if *b {
                "true".to_owned()
            } else {
                String::new()
            }
        },
        _ => String::new(),
    }
}

/// Follows the segments of the dotted `path` down from `data`, each as a
/// mapping key.
pub fn get_value<'a>(data: &'a Data, path: &str) -> (r: Option<&'a Data>)
    ensures
        match r {
            Some(v) => descend_from(data@, path@, 0) == Some(v@),
            None => descend_from(data@, path@, 0) is None,
        },
{
    let chars = chars_of(path);
    descend(data, &chars, 0)
}

/// Follows the segments of `path[start..]` down from `data`.
pub(crate) fn descend<'a>(data: &'a Data, path: &Vec<char>, start: usize) -> (r: Option<&'a Data>)
    requires
        start <= path.len(),
    ensures
        match r {
            Some(v) => descend_from(data@, path@, start as int) == Some(v@),
            None => descend_from(data@, path@, start as int) is None,
        },
{
    let sep = vec!['.'];
    assert(sep@ =~= dot());
    let mut current: &'a Data = data;
    let mut from: usize = start;
    loop
        invariant
            from <= path.len(),
            sep@ == dot(),
            descend_from(data@, path@, start as int) == descend_from(
                current@,
                path@,
                from as int,
            ),
        decreases path.len() - from,
    {
        match find(path, &sep, from) {
            None => {
                let key = string_of_range(path, from, path.len());
                return current.get(key.as_str());
            },
            Some(p) => {
                proof {
                    lemma_find_from(path@, dot(), from as int);
                }
                let key = string_of_range(path, from, p);
                match current.get(key.as_str()) {
                    None => {
                        return None;
                    },
                    Some(next) => {
                        current = next;
                        from = p + 1;
                    },
                }
            },
        }
    }
}

/// Looks `key` up through the frames, innermost first.
pub fn find_frame<'a>(context_stack: &Vec<&'a Data>, key: &str) -> (r: Option<&'a Data>)
    ensures
        match r {
            Some(v) => find_in_stack(
                stack_views(context_stack@),
                key@,
                context_stack@.len() as int,
            ) == Some(v@),
            None => find_in_stack(stack_views(context_stack@), key@, context_stack@.len() as int)
                is None,
        },
{
    let mut upto: usize = context_stack.len();
    while upto > 0
        invariant
            upto <= context_stack.len(),
            find_in_stack(stack_views(context_stack@), key@, context_stack@.len() as int)
                == find_in_stack(stack_views(context_stack@), key@, upto as int),
        decreases upto,
    {
        match context_stack[upto - 1].get(key) {
            Some(v) => {
                return Some(v);
            },
            None => {},
        }
        upto -= 1;
    }
    None
}

/// Resolves a name other than `.` against a stack of frames.
pub fn lookup_value<'a>(path: &str, context_stack: &Vec<&'a Data>) -> (r: Option<&'a Data>)
    ensures
        match r {
            Some(v) => lookup_name(stack_views(context_stack@), path@) == Some(v@),
            None => lookup_name(stack_views(context_stack@), path@) is None,
        },
{
    match find_frame(context_stack, path) {
        Some(v) => Some(v),
        None => {
            let chars = chars_of(path);
            let sep = vec!['.'];
            assert(sep@ =~= dot());
            match find(&chars, &sep, 0) {
                None => None,
                Some(p) => {
                    proof {
                        lemma_find_from(chars@, dot(), 0);
                        assert(dot().len() == 1);
                        assert(p + 1 <= chars.len());
                    }
                    let first = string_of_range(&chars, 0, p);
                    assert(chars@.take(p as int) == chars@.subrange(0, p as int));
                    match find_frame(context_stack, first.as_str()) {
                        None => None,
                        Some(v) => descend(v, &chars, p + 1),
                    }
                },
            }
        },
    }
}

} // verus!
