//! JSON documents as plain values.
use vstd::prelude::*;

verus! {

/// A JSON value.
pub enum Json {
    /// `null`.
    Null,
    /// `true` or `false`.
    Bool(bool),
    /// A number, with its value where that is an unsigned integer of 64 bits.
    Number(Option<u64>),
    /// A string.
    Text(String),
    /// An array.
    Array(Vec<Json>),
    /// An object as a list of its members. Of members with the same name the last one counts.
    Object(Vec<(String, Json)>),
}

/// What a JSON value says.
pub enum JsonTree {
    /// `null`.
    Null,
    /// `true` or `false`.
    Bool(bool),
    /// A number, with its value where that is an unsigned integer of 64 bits.
    Number(Option<u64>),
    /// A string.
    Text(Seq<char>),
    /// An array.
    Array(Seq<JsonTree>),
    /// An object, by the names of its members.
    Object(Map<Seq<char>, JsonTree>),
}

/// What the items of an array say.
pub open spec fn trees(items: Seq<Json>) -> Seq<JsonTree>
    decreases items,
{
    if items.len() == 0 {
        Seq::empty()
    } else {
        trees(items.drop_last()).push(items.last().tree())
    }
}

/// What the members of an object say.
pub open spec fn members(list: Seq<(String, Json)>) -> Map<Seq<char>, JsonTree>
    decreases list,
{
    if list.len() == 0 {
        Map::empty()
    } else {
        members(list.drop_last()).insert(list.last().0@, list.last().1.tree())
    }
}

impl Json {
    /// What the value says.
    pub open spec fn tree(self) -> JsonTree
        decreases self,
    {
        match self {
            Json::Null => JsonTree::Null,
            Json::Bool(b) => JsonTree::Bool(b),
            Json::Number(n) => JsonTree::Number(n),
            Json::Text(s) => JsonTree::Text(s@),
            Json::Array(items) => JsonTree::Array(trees(items@)),
            Json::Object(list) => JsonTree::Object(members(list@)),
        }
    }
}

/// The value of a number that is an unsigned integer of 64 bits; `None` for everything else.
pub open spec fn number_of(tree: JsonTree) -> Option<u64> {
    match tree {
        JsonTree::Number(n) => n,
        _ => None,
    }
}

/// The member of an object with the given name; `None` where it is missing or `tree` is no object.
pub open spec fn member_of(tree: JsonTree, name: Seq<char>) -> Option<JsonTree> {
    match tree {
        JsonTree::Object(map) => if map.contains_key(name) {
            Some(map[name])
        } else {
            None
        },
        _ => None,
    }
}

/// A value of the JSON parser; what it says is [`value_tree`].
#[verifier::external_type_specification]
#[verifier::external_body]
pub struct ExJsonValue(serde_json::Value);

/// Why a text is no JSON document; nothing is said of it.
#[verifier::external_type_specification]
#[verifier::external_body]
pub struct ExJsonError(serde_json::Error);

/// What a value of the JSON parser says.
pub uninterp spec fn value_tree(value: serde_json::Value) -> JsonTree;

/// What a text says when it is read as a JSON document, `None` where it is none.
pub uninterp spec fn json_document(text: Seq<char>) -> Option<JsonTree>;

/// A value of the JSON parser, taken apart once.
pub enum JsonNode<'a> {
    /// `null`.
    Null,
    /// `true` or `false`.
    Bool(bool),
    /// A number, with its value where that is an unsigned integer of 64 bits.
    Number(Option<u64>),
    /// A string.
    Text(&'a String),
    /// An array.
    Array(&'a Vec<serde_json::Value>),
    /// An object.
    Object(Vec<(&'a String, &'a serde_json::Value)>),
}

/// What the items of an array of the parser say.
pub open spec fn value_trees(items: Seq<serde_json::Value>) -> Seq<JsonTree> {
    items.map_values(|v: serde_json::Value| value_tree(v))
}

/// What the members of an object of the parser say.
pub open spec fn value_members(list: Seq<(&String, &serde_json::Value)>) -> Map<Seq<char>, JsonTree>
    decreases list.len(),
{
    if list.len() == 0 {
        Map::empty()
    } else {
        value_members(list.drop_last()).insert(list.last().0@, value_tree(*list.last().1))
    }
}

/// No two members have the same name.
pub open spec fn has_distinct_names(list: Seq<(&String, &serde_json::Value)>) -> bool {
    forall|i: int, j: int|
        0 <= i < j < list.len() ==> (#[trigger] list[i]).0@ != (#[trigger] list[j]).0@
}

/// What a value that was taken apart says.
pub open spec fn node_tree(node: JsonNode) -> JsonTree {
    match node {
        JsonNode::Null => JsonTree::Null,
        JsonNode::Bool(b) => JsonTree::Bool(b),
        JsonNode::Number(n) => JsonTree::Number(n),
        JsonNode::Text(s) => JsonTree::Text(s@),
        JsonNode::Array(items) => JsonTree::Array(value_trees(items@)),
        JsonNode::Object(list) => JsonTree::Object(value_members(list@)),
    }
}

/// `serde_json::from_str` for `serde_json::Value`: the document that a text is, or the error where
/// it is none.
#[verifier::external_body]
fn parse_value(text: &str) -> (r: Result<serde_json::Value, serde_json::Error>)
    ensures
        r is Ok <==> json_document(text@) is Some,
        r matches Ok(value) ==> json_document(text@) == Some(value_tree(value)),
{
    serde_json::from_str(text)
}

/// The variants of `serde_json::Value`, with `Number::as_u64` for the value of a number and
/// `Map::iter` for the members of an object: what the parts say is what the value says, and no
/// two members of an object have the same name.
#[verifier::external_body]
fn take_apart<'a>(value: &'a serde_json::Value) -> (node: JsonNode<'a>)
    ensures
        node_tree(node) == value_tree(*value),
        node matches JsonNode::Object(list) ==> has_distinct_names(list@),
{
    match value {
        serde_json::Value::Null => JsonNode::Null,
        serde_json::Value::Bool(b) => JsonNode::Bool(*b),
        serde_json::Value::Number(n) => JsonNode::Number(n.as_u64()),
        serde_json::Value::String(s) => JsonNode::Text(s),
        serde_json::Value::Array(items) => JsonNode::Array(items),
        serde_json::Value::Object(map) => JsonNode::Object(map.iter().collect()),
    }
}

proof fn lemma_value_members(list: Seq<(&String, &serde_json::Value)>)
    requires
        has_distinct_names(list),
    ensures
        value_members(list).dom().finite(),
        forall|i: int|
            0 <= i < list.len() ==> {
                &&& value_members(list).contains_key((#[trigger] list[i]).0@)
                &&& value_members(list)[list[i].0@] == value_tree(*list[i].1)
            },
        forall|name: Seq<char>| #[trigger]
            value_members(list).contains_key(name) ==> exists|i: int|
                0 <= i < list.len() && (#[trigger] list[i]).0@ == name,
    decreases list.len(),
{
    if list.len() > 0 {
        let front = list.drop_last();
        assert(has_distinct_names(front)) by {
            assert forall|i: int, j: int| 0 <= i < j < front.len() implies (#[trigger] front[i]).0@
                != (#[trigger] front[j]).0@ by {
                assert(list[i].0@ != list[j].0@);
            }
        }
        lemma_value_members(front);
        assert forall|i: int| 0 <= i < list.len() implies value_members(list).contains_key(
            (#[trigger] list[i]).0@,
        ) && value_members(list)[list[i].0@] == value_tree(*list[i].1) by {
            if i < front.len() {
                assert(front[i] == list[i]);
                assert(list[i].0@ != list[list.len() - 1].0@);
            }
        }
        assert forall|name: Seq<char>| #[trigger]
            value_members(list).contains_key(name) implies exists|i: int|
            0 <= i < list.len() && (#[trigger] list[i]).0@ == name by {
            if name == list.last().0@ {
                assert(list[list.len() - 1].0@ == name);
            } else {
                assert(value_members(front).contains_key(name));
                let i = choose|i: int| 0 <= i < front.len() && (#[trigger] front[i]).0@ == name;
                assert(list[i].0@ == name);
            }
        }
    }
}

impl Json {
    /// The plain form of a value of the JSON parser.
    fn from_value(value: &serde_json::Value) -> (r: Json)
        ensures
            r.tree() == value_tree(*value),
        decreases value_tree(*value),
    {
        let ghost tree = value_tree(*value);
        match take_apart(value) {
            JsonNode::Null => Json::Null,
            JsonNode::Bool(b) => Json::Bool(b),
            JsonNode::Number(n) => Json::Number(n),
            JsonNode::Text(s) => Json::Text(s.clone()),
            JsonNode::Array(values) => {
                let mut items: Vec<Json> = Vec::new();
                for i in 0..values.len()
                    invariant
                        tree == value_tree(*value),
                        tree == JsonTree::Array(value_trees(values@)),
                        trees(items@) == value_trees(values@).take(i as int),
                {
                    proof {
                        assert(tree->Array_0[i as int] == value_tree(values[i as int]));
                        assert(decreases_to!(tree => tree->Array_0));
                        assert(decreases_to!(tree->Array_0 => tree->Array_0[i as int]));
                    }
                    let item = Json::from_value(&values[i]);
                    assert(items@.push(item).drop_last() =~= items@);
                    items.push(item);
                    assert(value_trees(values@).take(i + 1) =~= value_trees(values@).take(
                        i as int,
                    ).push(item.tree()));
                }
                assert(value_trees(values@).take(values.len() as int) =~= value_trees(values@));
                Json::Array(items)
            },
            JsonNode::Object(list) => {
                let mut entries: Vec<(String, Json)> = Vec::new();
                proof {
                    lemma_value_members(list@);
                }
                for i in 0..list.len()
                    invariant
                        tree == value_tree(*value),
                        tree == JsonTree::Object(value_members(list@)),
                        has_distinct_names(list@),
                        members(entries@) == value_members(list@.take(i as int)),
                {
                    let name: &String = list[i].0;
                    let member: &serde_json::Value = list[i].1;
                    proof {
                        lemma_value_members(list@);
                        assert(tree->Object_0[name@] == value_tree(*member));
                        assert(decreases_to!(tree => tree->Object_0));
                        assert(decreases_to!(tree->Object_0 => tree->Object_0[name@]));
                    }
                    let entry: (String, Json) = (name.clone(), Json::from_value(member));
                    assert(entries@.push(entry).drop_last() =~= entries@);
                    assert(list@.take(i + 1).drop_last() =~= list@.take(i as int));
                    entries.push(entry);
                }
                assert(list@.take(list.len() as int) =~= list@);
                Json::Object(entries)
            },
        }
    }

    /// Read a text as a JSON document.
    pub fn parse(text: &str) -> (r: Result<Json, serde_json::Error>)
        ensures
            r is Ok <==> json_document(text@) is Some,
            r matches Ok(json) ==> json_document(text@) == Some(json.tree()),
    {
        match parse_value(text) {
            Ok(value) => Ok(Json::from_value(&value)),
            Err(error) => Err(error),
        }
    }

    /// The items of an array.
    pub fn as_array(&self) -> (r: Option<&Vec<Json>>)
        ensures
            match self.tree() {
                JsonTree::Array(items) => r is Some && trees(r->0@) == items,
                _ => r is None,
            },
    {
        match self {
            Json::Array(items) => Some(items),
            _ => None,
        }
    }

    /// The characters of a string.
    pub fn as_str(&self) -> (r: Option<&str>)
        ensures
            match self.tree() {
                JsonTree::Text(text) => r is Some && r->0@ == text,
                _ => r is None,
            },
    {
        match self {
            Json::Text(text) => Some(text.as_str()),
            _ => None,
        }
    }

    /// The value of a number that is an unsigned integer of 64 bits.
    pub fn as_u64(&self) -> (r: Option<u64>)
        ensures
            r == number_of(self.tree()),
    {
        match self {
            Json::Number(n) => *n,
            _ => None,
        }
    }

    /// The member of an object with the given name.
    pub fn get(&self, name: &str) -> (r: Option<&Json>)
        ensures
            match r {
                Some(json) => member_of(self.tree(), name@) == Some(json.tree()),
                None => member_of(self.tree(), name@) is None,
            },
    {
        match self {
            Json::Object(list) => {
                let wanted: String = name.to_owned();
                let mut i: usize = list.len();
                assert(list@.take(i as int) =~= list@);
                while i > 0
                    invariant
                        i <= list.len(),
                        wanted@ == name@,
                        self.tree() == JsonTree::Object(members(list@)),
                        member_of(self.tree(), name@) == member_of(
                            JsonTree::Object(members(list@.take(i as int))),
                            name@,
                        ),
                    decreases i,
                {
                    i = i - 1;
                    assert(list@.take(i + 1).drop_last() =~= list@.take(i as int));
                    if list[i].0 == wanted {
                        return Some(&list[i].1);
                    }
                }
                None
            },
            _ => None,
        }
    }
}

// ---------------------------------------------------------------------------
// Laws
// ---------------------------------------------------------------------------

/// What a plain value says: a list says what its items say, in order, and everything else says what
/// it holds.
pub proof fn law_what_values_say(
    b: bool,
    n: Option<u64>,
    text: String,
    items: Vec<Json>,
    list: Vec<(String, Json)>,
)
    ensures
        Json::Null.tree() == JsonTree::Null,
        Json::Bool(b).tree() == JsonTree::Bool(b),
        Json::Number(n).tree() == JsonTree::Number(n),
        Json::Text(text).tree() == JsonTree::Text(text@),
        Json::Array(items).tree() is Array,
        Json::Array(items).tree()->Array_0.len() == items@.len(),
        forall|i: int|
            0 <= i < items@.len() ==> #[trigger] Json::Array(items).tree()->Array_0[i]
                == items@[i].tree(),
        Json::Object(list).tree() is Object,
{
    lemma_trees_in_order(items@);
}

proof fn lemma_trees_in_order(items: Seq<Json>)
    ensures
        trees(items).len() == items.len(),
        forall|i: int| 0 <= i < items.len() ==> #[trigger] trees(items)[i] == items[i].tree(),
    decreases items.len(),
{
    if items.len() > 0 {
        lemma_trees_in_order(items.drop_last());
        assert forall|i: int| 0 <= i < items.len() implies #[trigger] trees(items)[i]
            == items[i].tree() by {
            if i < items.len() - 1 {
                assert(items.drop_last()[i] == items[i]);
                assert(trees(items)[i] == trees(items.drop_last())[i]);
            }
        }
    }
}

/// An object has the members that its list names, and of members with the same name the last one
/// counts: the member at `index` is the one that is found if no member behind it has its name.
pub proof fn law_last_member_counts(list: Vec<(String, Json)>, name: Seq<char>, index: int)
    ensures
        member_of(Json::Object(list).tree(), name) is Some <==> exists|i: int|
            0 <= i < list@.len() && (#[trigger] list@[i]).0@ == name,
        0 <= index < list@.len() && list@[index].0@ == name && (forall|j: int|
            index < j < list@.len() ==> (#[trigger] list@[j]).0@ != name) ==> member_of(
            Json::Object(list).tree(),
            name,
        ) == Some(list@[index].1.tree()),
{
    lemma_has_member(list@, name);
    if 0 <= index < list@.len() && list@[index].0@ == name && (forall|j: int|
        index < j < list@.len() ==> (#[trigger] list@[j]).0@ != name) {
        lemma_last_member(list@, name, index);
    }
}

proof fn lemma_has_member(list: Seq<(String, Json)>, name: Seq<char>)
    ensures
        members(list).contains_key(name) <==> exists|i: int|
            0 <= i < list.len() && (#[trigger] list[i]).0@ == name,
    decreases list.len(),
{
    if list.len() > 0 {
        let front = list.drop_last();
        let last = list.len() - 1;
        lemma_has_member(front, name);
        if list[last].0@ == name {
            assert(members(list).contains_key(name));
        } else if members(front).contains_key(name) {
            let i = choose|i: int| 0 <= i < front.len() && (#[trigger] front[i]).0@ == name;
            assert(list[i].0@ == name);
        } else if exists|i: int| 0 <= i < list.len() && (#[trigger] list[i]).0@ == name {
            let i = choose|i: int| 0 <= i < list.len() && (#[trigger] list[i]).0@ == name;
            assert(front[i].0@ == name);
        }
    }
}

proof fn lemma_last_member(list: Seq<(String, Json)>, name: Seq<char>, index: int)
    requires
        0 <= index < list.len(),
        list[index].0@ == name,
        forall|j: int| index < j < list.len() ==> (#[trigger] list[j]).0@ != name,
    ensures
        members(list).contains_key(name),
        members(list)[name] == list[index].1.tree(),
    decreases list.len(),
{
    let front = list.drop_last();
    let last = list.len() - 1;
    if index < last {
        assert(list[last].0@ != name);
        assert(front[index].0@ == name);
        assert forall|j: int| index < j < front.len() implies (#[trigger] front[j]).0@ != name by {
            assert(list[j].0@ != name);
        }
        lemma_last_member(front, name, index);
    }
}

/// Looking into a value: a number is what a number holds, a member is what an object has under the
/// name, and there is nothing else to be found.
pub proof fn law_lookups(tree: JsonTree, name: Seq<char>)
    ensures
        tree is Number ==> number_of(tree) == tree->Number_0,
        !(tree is Number) ==> number_of(tree) is None,
        !(tree is Object) ==> member_of(tree, name) is None,
        tree is Object && tree->Object_0.contains_key(name) ==> member_of(tree, name) == Some(
            tree->Object_0[name],
        ),
        tree is Object && !tree->Object_0.contains_key(name) ==> member_of(tree, name) is None,
{
}

} // verus!
