//! JSON values: the type, what a value means, and the rewrites that prepare a
//! value for fingerprinting.

use crate::text::{
    key_before, key_order, lemma_key_before_irreflexive, lemma_key_before_transitive, same_text,
    KeyOrder,
};
use vstd::prelude::*;

verus! {

/// A JSON number of `serde_json`, carried through unread.
#[verifier::external_type_specification]
#[verifier::external_body]
pub struct ExNumber(serde_json::Number);

/// `serde_json::Number::clone` returns the number that it was given.
pub assume_specification[ <serde_json::Number as Clone>::clone ](
    number: &serde_json::Number,
) -> (copy: serde_json::Number)
    ensures
        copy == *number,
;

/// A JSON value. The members of an object stand in the order in which they were
/// written; where a key stands twice, the later member counts.
#[derive(Debug)]
pub enum Json {
    Null,
    Bool(bool),
    Number(serde_json::Number),
    String(String),
    Array(Vec<Json>),
    Object(Vec<(String, Json)>),
}

/// What a JSON value means: an object is a map from keys to values, without order.
#[verifier::ext_equal]
pub enum JsonModel {
    Null,
    Bool(bool),
    Number(serde_json::Number),
    String(Seq<char>),
    Array(Seq<JsonModel>),
    Object(Map<Seq<char>, JsonModel>),
}

/// The meaning of a value.
pub open spec fn json_model(value: Json) -> JsonModel
    decreases value,
{
    match value {
        Json::Null => JsonModel::Null,
        Json::Bool(b) => JsonModel::Bool(b),
        Json::Number(n) => JsonModel::Number(n),
        Json::String(s) => JsonModel::String(s@),
        Json::Array(items) => JsonModel::Array(items_model(items@)),
        Json::Object(members) => JsonModel::Object(members_model(members@)),
    }
}

/// The meaning of the items of an array, one for one.
pub open spec fn items_model(items: Seq<Json>) -> Seq<JsonModel>
    decreases items,
{
    Seq::new(
        items.len(),
        |i: int|
            if 0 <= i < items.len() {
                json_model(items[i])
            } else {
                JsonModel::Null
            },
    )
}

/// The meaning of the members of an object: later members replace earlier ones.
pub open spec fn members_model(members: Seq<(String, Json)>) -> Map<Seq<char>, JsonModel>
    decreases members,
{
    if members.len() == 0 {
        Map::empty()
    } else {
        members_model(members.drop_last()).insert(
            members.last().0@,
            json_model(members.last().1),
        )
    }
}

impl View for Json {
    type V = JsonModel;

    open spec fn view(&self) -> JsonModel {
        json_model(*self)
    }
}

/// The member `key` of a value: `None` where the value is no object or lacks the key.
pub open spec fn member(value: JsonModel, key: Seq<char>) -> Option<JsonModel> {
    match value {
        JsonModel::Object(fields) => if fields.contains_key(key) {
            Some(fields[key])
        } else {
            None
        },
        _ => None,
    }
}

/// A further member replaces what its key stood for.
pub proof fn lemma_members_push(members: Seq<(String, Json)>, entry: (String, Json))
    ensures
        members_model(members.push(entry)) == members_model(members).insert(entry.0@, entry.1@),
{
    assert(members.push(entry).drop_last() =~= members);
}

/// An item is smaller than its array.
pub proof fn lemma_item_smaller(items: Vec<Json>, i: int)
    requires
        0 <= i < items@.len(),
    ensures
        decreases_to!(Json::Array(items) => items@[i]),
{
    let value = Json::Array(items);
    assert(decreases_to!(value => value->Array_0));
    assert(decreases_to!(items => items@));
    assert(decreases_to!(items@ => items@[i]));
}

/// The value of a member is smaller than its object.
pub proof fn lemma_member_smaller(members: Vec<(String, Json)>, i: int)
    requires
        0 <= i < members@.len(),
    ensures
        decreases_to!(Json::Object(members) => members@[i].1),
{
    let value = Json::Object(members);
    assert(decreases_to!(value => value->Object_0));
    assert(decreases_to!(members => members@));
    assert(decreases_to!(members@ => members@[i]));
    assert(decreases_to!(members@[i] => members@[i].1));
}

impl Clone for Json {
    fn clone(&self) -> (copy: Self)
        ensures
            copy@ == self@,
        decreases self,
    {
        match self {
            Json::Null => Json::Null,
            Json::Bool(b) => Json::Bool(*b),
            Json::Number(n) => Json::Number(n.clone()),
            Json::String(s) => Json::String(s.clone()),
            Json::Array(items) => {
                let mut copies: Vec<Json> = Vec::new();
                let mut i: usize = 0;
                while i < items.len()
                    invariant
                        *self == Json::Array(*items),
                        i <= items@.len(),
                        copies@.len() == i,
                        forall|j: int| 0 <= j < i ==> (#[trigger] copies@[j])@ == items@[j]@,
                    decreases items@.len() - i,
                {
                    proof {
                        lemma_item_smaller(*items, i as int);
                    }
                    copies.push(items[i].clone());
                    i = i + 1;
                }
                assert(items_model(copies@) =~= items_model(items@));
                Json::Array(copies)
            },
            Json::Object(members) => {
                let mut copies: Vec<(String, Json)> = Vec::new();
                let mut i: usize = 0;
                assert(members@.take(0) =~= Seq::empty());
                while i < members.len()
                    invariant
                        *self == Json::Object(*members),
                        i <= members@.len(),
                        members_model(copies@) == members_model(members@.take(i as int)),
                    decreases members@.len() - i,
                {
                    proof {
                        lemma_member_smaller(*members, i as int);
                    }
                    let entry = (members[i].0.clone(), members[i].1.clone());
                    proof {
                        lemma_members_push(copies@, entry);
                        lemma_members_push(members@.take(i as int), members@[i as int]);
                        assert(members@.take(i as int).push(members@[i as int])
                            =~= members@.take(i + 1));
                    }
                    copies.push(entry);
                    i = i + 1;
                }
                assert(members@.take(i as int) =~= members@);
                Json::Object(copies)
            },
        }
    }
}

impl Json {
    /// The member `key` of an object; `None` for a value that is no object or lacks the key.
    pub fn get(&self, key: &str) -> (found: Option<&Json>)
        ensures
            match found {
                Some(value) => member(self@, key@) == Some(value@),
                None => member(self@, key@) is None,
            },
    {
        match self {
            Json::Object(members) => {
                let mut i: usize = members.len();
                assert(members@.take(i as int) =~= members@);
                while i > 0
                    invariant
                        i <= members@.len(),
                        members_model(members@).get(key@) == members_model(
                            members@.take(i as int),
                        ).get(key@),
                        self@ == JsonModel::Object(members_model(members@)),
                    decreases i,
                {
                    i = i - 1;
                    proof {
                        lemma_members_push(members@.take(i as int), members@[i as int]);
                        assert(members@.take(i as int).push(members@[i as int])
                            =~= members@.take(i + 1));
                    }
                    if same_text(members[i].0.as_str(), key) {
                        return Some(&members[i].1);
                    }
                }
                None
            },
            _ => None,
        }
    }
}

/// Adds a member to an object.
pub fn add_member(members: &mut Vec<(String, Json)>, key: &str, value: Json)
    ensures
        members_model(final(members)@) == members_model(old(members)@).insert(key@, value@),
{
    let entry = (key.to_owned(), value);
    proof {
        lemma_members_push(members@, entry);
    }
    members.push(entry);
}

/// A value without its cache markers: the member `cache_control` is gone from every
/// object at every depth.
pub open spec fn without_cache_control(value: JsonModel) -> JsonModel
    decreases value,
{
    match value {
        JsonModel::Array(items) => JsonModel::Array(
            Seq::new(
                items.len(),
                |i: int|
                    if 0 <= i < items.len() {
                        without_cache_control(items[i])
                    } else {
                        JsonModel::Null
                    },
            ),
        ),
        JsonModel::Object(fields) => JsonModel::Object(
            Map::new(
                |key: Seq<char>| fields.contains_key(key) && key != "cache_control"@,
                |key: Seq<char>|
                    if fields.contains_key(key) {
                        without_cache_control(fields[key])
                    } else {
                        JsonModel::Null
                    },
            ),
        ),
        _ => value,
    }
}

spec fn fields_without_cache_control(fields: Map<Seq<char>, JsonModel>) -> Map<
    Seq<char>,
    JsonModel,
> {
    without_cache_control(JsonModel::Object(fields))->Object_0
}

proof fn lemma_strip_insert(fields: Map<Seq<char>, JsonModel>, key: Seq<char>, value: JsonModel)
    ensures
        fields_without_cache_control(fields.insert(key, value)) == if key == "cache_control"@ {
            fields_without_cache_control(fields)
        } else {
            fields_without_cache_control(fields).insert(key, without_cache_control(value))
        },
{
    let after = fields_without_cache_control(fields.insert(key, value));
    if key == "cache_control"@ {
        assert(after =~= fields_without_cache_control(fields));
    } else {
        assert(after =~= fields_without_cache_control(fields).insert(
            key,
            without_cache_control(value),
        ));
    }
}

/// Removes every `cache_control` member from a value, at every depth.
pub fn strip_cache_control(value: &mut Json)
    ensures
        final(value)@ == without_cache_control(old(value)@),
    decreases *old(value),
{
    match value {
        Json::Array(items) => {
            let ghost before = items@;
            let ghost whole = *items;
            let mut i: usize = 0;
            while i < items.len()
                invariant
                    before == whole@,
                    items@.len() == before.len(),
                    i <= items@.len(),
                    *old(value) == Json::Array(whole),
                    forall|j: int| i <= j < before.len() ==> items@[j] == before[j],
                    forall|j: int|
                        0 <= j < i ==> (#[trigger] items@[j])@ == without_cache_control(before[j]@),
                decreases before.len() - i,
            {
                proof {
                    lemma_item_smaller(whole, i as int);
                }
                strip_cache_control(&mut items[i]);
                i = i + 1;
            }
            assert(items_model(items@) =~= without_cache_control(
                JsonModel::Array(items_model(before)),
            )->Array_0);
        },
        Json::Object(members) => {
            let ghost before = members@;
            let ghost whole = *members;
            let ghost mut done: int = 0;
            let mut i: usize = 0;
            assert(before.take(0) =~= Seq::empty());
            assert(members@.take(0) =~= Seq::empty());
            assert(fields_without_cache_control(Map::empty()) =~= Map::empty());
            while i < members.len()
                invariant
                    before == whole@,
                    i <= done <= before.len(),
                    i <= members@.len(),
                    members@.len() - i == before.len() - done,
                    *old(value) == Json::Object(whole),
                    forall|j: int|
                        i <= j < members@.len() ==> members@[j] == before[j + (done - i)],
                    members_model(members@.take(i as int)) == fields_without_cache_control(
                        members_model(before.take(done)),
                    ),
                decreases before.len() - done,
            {
                let ghost current = members@;
                proof {
                    lemma_member_smaller(whole, done);
                    lemma_members_push(before.take(done), before[done]);
                    assert(before.take(done).push(before[done]) =~= before.take(done + 1));
                    lemma_strip_insert(
                        members_model(before.take(done)),
                        before[done].0@,
                        before[done].1@,
                    );
                }
                if same_text(members[i].0.as_str(), "cache_control") {
                    members.remove(i);
                    assert(members@.take(i as int) =~= current.take(i as int));
                } else {
                    strip_cache_control(&mut members[i].1);
                    proof {
                        lemma_members_push(current.take(i as int), members@[i as int]);
                        assert(members@.take(i + 1) =~= current.take(i as int).push(
                            members@[i as int],
                        ));
                    }
                    i = i + 1;
                }
                proof {
                    done = done + 1;
                }
            }
            assert(members@.take(i as int) =~= members@);
            assert(before.take(done) =~= before);
        },
        _ => {},
    }
}

/// The keys of the members come in strictly increasing byte order.
pub open spec fn keys_increase(members: Seq<(String, Json)>) -> bool {
    forall|i: int, j: int|
        0 <= i < j < members.len() ==> #[trigger] key_before(members[i].0@, members[j].0@)
}

/// Every object in the value, at every depth, holds its keys in strictly increasing
/// byte order.
pub open spec fn is_canonical(value: Json) -> bool
    decreases value,
{
    match value {
        Json::Array(items) => forall|i: int|
            0 <= i < items@.len() ==> is_canonical(#[trigger] items@[i]),
        Json::Object(members) => {
            &&& keys_increase(members@)
            &&& forall|i: int| 0 <= i < members@.len() ==> is_canonical((#[trigger] members@[i]).1)
        },
        _ => true,
    }
}

/// Two values are written alike: the same values, with the members of their objects in
/// the same order, at every depth.
pub open spec fn same_layout(a: Json, b: Json) -> bool
    decreases a,
{
    match (a, b) {
        (Json::Array(x), Json::Array(y)) => {
            &&& x@.len() == y@.len()
            &&& forall|i: int| 0 <= i < x@.len() ==> same_layout(#[trigger] x@[i], y@[i])
        },
        (Json::Object(x), Json::Object(y)) => {
            &&& x@.len() == y@.len()
            &&& forall|i: int|
                0 <= i < x@.len() ==> (#[trigger] x@[i]).0@ == y@[i].0@ && same_layout(
                    x@[i].1,
                    y@[i].1,
                )
        },
        _ => a@ == b@,
    }
}

proof fn lemma_members_concat(a: Seq<(String, Json)>, b: Seq<(String, Json)>)
    ensures
        members_model(a + b) == members_model(a).union_prefer_right(members_model(b)),
    decreases b.len(),
{
    if b.len() == 0 {
        assert(a + b =~= a);
        assert(members_model(a).union_prefer_right(Map::empty()) =~= members_model(a));
    } else {
        lemma_members_concat(a, b.drop_last());
        lemma_members_push(a + b.drop_last(), b.last());
        assert((a + b.drop_last()).push(b.last()) =~= a + b);
        assert(members_model(a).union_prefer_right(members_model(b)) =~= members_model(
            a,
        ).union_prefer_right(members_model(b.drop_last())).insert(b.last().0@, b.last().1@));
    }
}

/// A key has a value where some member has that key.
pub proof fn lemma_members_contain(members: Seq<(String, Json)>, key: Seq<char>)
    ensures
        members_model(members).contains_key(key) <==> exists|i: int|
            0 <= i < members.len() && (#[trigger] members[i]).0@ == key,
    decreases members.len(),
{
    if members.len() > 0 {
        let front = members.drop_last();
        lemma_members_contain(front, key);
        if members_model(front).contains_key(key) {
            let i = choose|i: int| 0 <= i < front.len() && (#[trigger] front[i]).0@ == key;
            assert(members[i].0@ == key);
        }
        if exists|i: int| 0 <= i < members.len() && (#[trigger] members[i]).0@ == key {
            let i = choose|i: int| 0 <= i < members.len() && (#[trigger] members[i]).0@ == key;
            if i < front.len() {
                assert(front[i].0@ == key);
            }
        }
    }
}

proof fn lemma_singleton_model(entry: (String, Json))
    ensures
        members_model(seq![entry]) == Map::<Seq<char>, JsonModel>::empty().insert(
            entry.0@,
            entry.1@,
        ),
{
    lemma_members_push(Seq::empty(), entry);
    assert(Seq::<(String, Json)>::empty().push(entry) =~= seq![entry]);
}

/// Puts a member into its place among members that are in key order, unless its key
/// is there already.
fn insert_if_absent(members: &mut Vec<(String, Json)>, entry: (String, Json))
    requires
        keys_increase(old(members)@),
        is_canonical(entry.1),
        forall|i: int|
            0 <= i < old(members)@.len() ==> is_canonical((#[trigger] old(members)@[i]).1),
    ensures
        keys_increase(final(members)@),
        forall|i: int|
            0 <= i < final(members)@.len() ==> is_canonical((#[trigger] final(members)@[i]).1),
        members_model(final(members)@) == if members_model(old(members)@).contains_key(entry.0@) {
            members_model(old(members)@)
        } else {
            members_model(old(members)@).insert(entry.0@, entry.1@)
        },
{
    let ghost before = members@;
    let ghost key = entry.0@;
    let mut position: usize = 0;
    let mut searching = true;
    while position < members.len() && searching
        invariant
            members@ == before,
            key == entry.0@,
            keys_increase(before),
            forall|i: int| 0 <= i < before.len() ==> is_canonical((#[trigger] before[i]).1),
            position <= before.len(),
            forall|i: int| 0 <= i < position ==> key_before((#[trigger] before[i]).0@, key),
            !searching ==> position < before.len() && key_before(key, before[position as int].0@),
        decreases before.len() - position + if searching { 1int } else { 0 },
    {
        match key_order(members[position].0.as_str(), entry.0.as_str()) {
            KeyOrder::Before => {
                position = position + 1;
            },
            KeyOrder::Same => {
                proof {
                    lemma_members_contain(before, key);
                }
                return ;
            },
            KeyOrder::After => {
                searching = false;
            },
        }
    }
    let ghost front = before.take(position as int);
    let ghost back = before.skip(position as int);
    proof {
        assert forall|i: int| position <= i < before.len() implies key_before(
            key,
            (#[trigger] before[i]).0@,
        ) by {
            if i > position {
                lemma_key_before_transitive(key, before[position as int].0@, before[i].0@);
            }
        }
        lemma_key_before_irreflexive(key);
        lemma_members_contain(before, key);
        lemma_members_contain(back, key);
        assert(!members_model(back).contains_key(key)) by {
            assert forall|i: int| 0 <= i < back.len() implies (#[trigger] back[i]).0@ != key by {
                assert(back[i] == before[i + position]);
            }
        }
        assert(!members_model(before).contains_key(key)) by {
            assert forall|i: int|
                0 <= i < before.len() implies (#[trigger] before[i]).0@ != key by {
                if i < position {
                    assert(key_before(before[i].0@, key));
                }
            }
        }
        lemma_members_concat(front, back);
        assert(front + back =~= before);
        lemma_singleton_model(entry);
        lemma_members_concat(front, seq![entry]);
        lemma_members_concat(front + seq![entry], back);
        assert(front + seq![entry] + back =~= before.insert(position as int, entry));
        assert(members_model(front).union_prefer_right(members_model(seq![entry])).union_prefer_right(
            members_model(back),
        ) =~= members_model(before).insert(key, entry.1@));
    }
    members.insert(position, entry);
}

/// Puts every object of a value into key order; where a key stands twice, only the
/// member that counts is kept.
fn sort_keys(value: &mut Json)
    ensures
        final(value)@ == old(value)@,
        is_canonical(*final(value)),
    decreases *old(value),
{
    match value {
        Json::Array(items) => {
            let ghost before = items@;
            let ghost whole = *items;
            let mut i: usize = 0;
            while i < items.len()
                invariant
                    before == whole@,
                    items@.len() == before.len(),
                    i <= items@.len(),
                    *old(value) == Json::Array(whole),
                    forall|j: int| i <= j < before.len() ==> items@[j] == before[j],
                    forall|j: int|
                        0 <= j < i ==> (#[trigger] items@[j])@ == before[j]@ && is_canonical(
                            items@[j],
                        ),
                decreases before.len() - i,
            {
                proof {
                    lemma_item_smaller(whole, i as int);
                }
                sort_keys(&mut items[i]);
                i = i + 1;
            }
            assert(items_model(items@) =~= items_model(before));
        },
        Json::Object(members) => {
            let ghost before = members@;
            let ghost whole = *members;
            let mut sorted: Vec<(String, Json)> = Vec::new();
            assert(before.skip(before.len() as int) =~= Seq::empty());
            while members.len() > 0
                invariant
                    before == whole@,
                    members@.len() <= before.len(),
                    *old(value) == Json::Object(whole),
                    members@ == before.take(members@.len() as int),
                    keys_increase(sorted@),
                    forall|j: int|
                        0 <= j < sorted@.len() ==> is_canonical((#[trigger] sorted@[j]).1),
                    members_model(sorted@) == members_model(before.skip(members@.len() as int)),
                decreases members@.len(),
            {
                let ghost n = members@.len() - 1;
                if let Some(popped) = members.pop() {
                    let mut entry = popped;
                    proof {
                        lemma_member_smaller(whole, n);
                    }
                    sort_keys(&mut entry.1);
                    proof {
                        lemma_singleton_model(before[n]);
                        lemma_members_concat(seq![before[n]], before.skip(n + 1));
                        assert(seq![before[n]] + before.skip(n + 1) =~= before.skip(n));
                        assert(members_model(before.skip(n)) =~= if members_model(
                            before.skip(n + 1),
                        ).contains_key(entry.0@) {
                            members_model(before.skip(n + 1))
                        } else {
                            members_model(before.skip(n + 1)).insert(entry.0@, entry.1@)
                        });
                        assert(members@ =~= before.take(n));
                    }
                    insert_if_absent(&mut sorted, entry);
                }
            }
            assert(before.skip(0) =~= before);
            *members = sorted;
        },
        _ => {},
    }
}

proof fn lemma_same_last_key(a: Seq<(String, Json)>, b: Seq<(String, Json)>)
    requires
        keys_increase(a),
        keys_increase(b),
        members_model(a) == members_model(b),
        a.len() > 0,
    ensures
        b.len() > 0,
        a.last().0@ == b.last().0@,
{
    let key = a.last().0@;
    assert(a[a.len() - 1].0@ == key);
    lemma_members_contain(a, key);
    lemma_members_contain(b, key);
    let j = choose|j: int| 0 <= j < b.len() && (#[trigger] b[j]).0@ == key;
    if j < b.len() - 1 {
        let other = b.last().0@;
        assert(b[b.len() - 1].0@ == other);
        assert(key_before(b[j].0@, b[b.len() - 1].0@));
        lemma_members_contain(b, other);
        lemma_members_contain(a, other);
        let i = choose|i: int| 0 <= i < a.len() && (#[trigger] a[i]).0@ == other;
        if i < a.len() - 1 {
            assert(key_before(a[i].0@, a[a.len() - 1].0@));
            lemma_key_before_transitive(key, other, key);
        }
        lemma_key_before_irreflexive(key);
    }
}

proof fn lemma_last_key_is_new(members: Seq<(String, Json)>)
    requires
        keys_increase(members),
        members.len() > 0,
    ensures
        keys_increase(members.drop_last()),
        members_model(members.drop_last()) == members_model(members).remove(members.last().0@),
{
    let front = members.drop_last();
    let key = members.last().0@;
    assert forall|i: int, j: int| 0 <= i < j < front.len() implies #[trigger] key_before(
        front[i].0@,
        front[j].0@,
    ) by {
        assert(key_before(members[i].0@, members[j].0@));
    }
    lemma_members_contain(front, key);
    lemma_key_before_irreflexive(key);
    assert forall|i: int| 0 <= i < front.len() implies (#[trigger] front[i]).0@ != key by {
        assert(key_before(members[i].0@, members[members.len() - 1].0@));
    }
    assert(members_model(front) =~= members_model(members).remove(key));
}

proof fn lemma_same_members(a: Seq<(String, Json)>, b: Seq<(String, Json)>)
    requires
        keys_increase(a),
        keys_increase(b),
        members_model(a) == members_model(b),
    ensures
        a.len() == b.len(),
        forall|i: int|
            0 <= i < a.len() ==> (#[trigger] a[i]).0@ == b[i].0@ && a[i].1@ == b[i].1@,
    decreases a.len(),
{
    if a.len() == 0 {
        if b.len() > 0 {
            lemma_same_last_key(b, a);
        }
    } else {
        lemma_same_last_key(a, b);
        lemma_last_key_is_new(a);
        lemma_last_key_is_new(b);
        let key = a.last().0@;
        lemma_same_members(a.drop_last(), b.drop_last());
        assert(members_model(a)[key] == a.last().1@);
        assert(members_model(b)[key] == b.last().1@);
        assert forall|i: int| 0 <= i < a.len() implies (#[trigger] a[i]).0@ == b[i].0@ && a[i].1@
            == b[i].1@ by {
            if i < a.len() - 1 {
                assert(a.drop_last()[i] == a[i]);
                assert(b.drop_last()[i] == b[i]);
            }
        }
    }
}

/// A value has one canonical form: two canonical values that mean the same are written
/// alike, whatever the order of keys was in what they come from.
pub proof fn law_canonical_form_is_unique(a: Json, b: Json)
    requires
        is_canonical(a),
        is_canonical(b),
        a@ == b@,
    ensures
        same_layout(a, b),
    decreases a,
{
    match (a, b) {
        (Json::Array(x), Json::Array(y)) => {
            assert(items_model(x@) == items_model(y@));
            assert(x@.len() == items_model(x@).len());
            assert(y@.len() == items_model(y@).len());
            assert forall|i: int| 0 <= i < x@.len() implies same_layout(
                #[trigger] x@[i],
                y@[i],
            ) by {
                assert(items_model(x@)[i] == x@[i]@);
                assert(items_model(y@)[i] == y@[i]@);
                lemma_item_smaller(x, i);
                law_canonical_form_is_unique(x@[i], y@[i]);
            }
        },
        (Json::Object(x), Json::Object(y)) => {
            lemma_same_members(x@, y@);
            assert forall|i: int| 0 <= i < x@.len() implies (#[trigger] x@[i]).0@ == y@[i].0@
                && same_layout(x@[i].1, y@[i].1) by {
                lemma_member_smaller(x, i);
                assert(is_canonical(y@[i].1));
                law_canonical_form_is_unique(x@[i].1, y@[i].1);
            }
        },
        _ => {},
    }
}

/// The canonical form of a value: the same value, with the keys of every object in
/// byte order.
pub fn canonicalize_json(value: Json) -> (canonical: Json)
    ensures
        canonical@ == value@,
        is_canonical(canonical),
{
    let mut canonical = value;
    sort_keys(&mut canonical);
    canonical
}

} // verus!
