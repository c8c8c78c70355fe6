//! The tree that a JSON text stands for.
use vstd::prelude::*;
use crate::number::Number;

verus! {

/// A JSON value.
///
/// An object holds its members as a list; what it means is the mapping from
/// keys to values, see [`ValueView`], and two values are equal where they mean
/// the same. In a well-formed value no object holds a key twice.
#[derive(Debug)]
pub enum Value {
    Null,
    Boolean(bool),
    Number(Number),
    String(String),
    Array(Vec<Value>),
    Object(Vec<(String, Value)>),
}

/// The mathematical value of a [`Value`].
pub enum ValueView {
    Null,
    Boolean(bool),
    Number(Seq<char>),
    String(Seq<char>),
    Array(Seq<ValueView>),
    Object(Map<Seq<char>, ValueView>),
}

/// The mapping that a list of members stands for: of two members with one key
/// the later one counts.
pub open spec fn members_map(members: Seq<(Seq<char>, ValueView)>) -> Map<Seq<char>, ValueView>
    decreases members.len(),
{
    if members.len() == 0 {
        Map::empty()
    } else {
        members_map(members.drop_last()).insert(members.last().0, members.last().1)
    }
}

/// No two members have the same key.
pub open spec fn keys_unique(members: Seq<(Seq<char>, ValueView)>) -> bool {
    forall|i: int, j: int|
        0 <= i < j < members.len() ==> (#[trigger] members[i]).0 != (#[trigger] members[j]).0
}

/// The values of the items of an array.
pub open spec fn item_views(items: Seq<Value>) -> Seq<ValueView>
    decreases items,
{
    Seq::new(
        items.len(),
        |i: int|
            if 0 <= i < items.len() {
                items[i].view()
            } else {
                ValueView::Null
            },
    )
}

/// The keys and values of the members of an object.
pub open spec fn member_views(members: Seq<(String, Value)>) -> Seq<(Seq<char>, ValueView)>
    decreases members,
{
    Seq::new(
        members.len(),
        |i: int|
            if 0 <= i < members.len() {
                (members[i].0@, members[i].1.view())
            } else {
                (Seq::empty(), ValueView::Null)
            },
    )
}

impl View for Value {
    type V = ValueView;

    open spec fn view(&self) -> ValueView
        decreases self,
    {
        match self {
            Value::Null => ValueView::Null,
            Value::Boolean(b) => ValueView::Boolean(*b),
            Value::Number(number) => ValueView::Number(number@),
            Value::String(text) => ValueView::String(text@),
            Value::Array(items) => ValueView::Array(item_views(items@)),
            Value::Object(members) => ValueView::Object(members_map(member_views(members@))),
        }
    }
}

impl Clone for Value {
    /// A value that means the same, and is well-formed where this one is.
    fn clone(&self) -> (r: Self)
        ensures
            r@ == self@,
            self.well_formed() ==> r.well_formed(),
        decreases self,
    {
        match self {
            Value::Null => Value::Null,
            Value::Boolean(b) => Value::Boolean(*b),
            Value::Number(number) => Value::Number(number.clone()),
            Value::String(text) => Value::String(text.clone()),
            Value::Array(items) => {
                let mut copies: Vec<Value> = Vec::new();
                let mut i: usize = 0;
                while i < items.len()
                    invariant
                        i <= items.len(),
                        copies@.len() == i,
                        forall|k: int| 0 <= k < i ==> (#[trigger] copies@[k])@ == items@[k]@,
                        forall|k: int|
                            0 <= k < i && items@[k].well_formed() ==> (
                            #[trigger] copies@[k]).well_formed(),
                        self == Value::Array(*items),
                    decreases items.len() - i,
                {
                    assert(decreases_to!(self => items@[i as int])) by {
                        assert(decreases_to!(self => self->Array_0));
                        assert(decreases_to!(self->Array_0 => self->Array_0@));
                        assert(decreases_to!(self->Array_0@ => self->Array_0@[i as int]));
                    }
                    copies.push(items[i].clone());
                    i += 1;
                }
                assert(item_views(copies@) =~= item_views(items@));
                Value::Array(copies)
            },
            Value::Object(members) => {
                let mut copies: Vec<(String, Value)> = Vec::new();
                let mut i: usize = 0;
                while i < members.len()
                    invariant
                        i <= members.len(),
                        copies@.len() == i,
                        forall|k: int|
                            0 <= k < i ==> (#[trigger] copies@[k]).0@ == members@[k].0@
                                && copies@[k].1@ == members@[k].1@,
                        forall|k: int|
                            0 <= k < i && members@[k].1.well_formed() ==> (
                            #[trigger] copies@[k]).1.well_formed(),
                        self == Value::Object(*members),
                    decreases members.len() - i,
                {
                    assert(decreases_to!(self => members@[i as int].1)) by {
                        let member = self->Object_0@[i as int];
                        assert(decreases_to!(self => self->Object_0));
                        assert(decreases_to!(self->Object_0 => self->Object_0@));
                        assert(decreases_to!(self->Object_0@ => member));
                        assert(decreases_to!(member => member.1));
                    }
                    copies.push((members[i].0.clone(), members[i].1.clone()));
                    i += 1;
                }
                assert(member_views(copies@) =~= member_views(members@));
                Value::Object(copies)
            },
        }
    }
}

impl Value {
    /// No object in the value, at any depth, holds a key twice.
    pub open spec fn well_formed(&self) -> bool
        decreases self,
    {
        match self {
            Value::Array(items) => forall|i: int|
                0 <= i < items@.len() ==> (#[trigger] items@[i]).well_formed(),
            Value::Object(members) => {
                &&& keys_unique(member_views(members@))
                &&& forall|i: int|
                    0 <= i < members@.len() ==> (#[trigger] members@[i]).1.well_formed()
            },
            _ => true,
        }
    }
}

/// Replacing the last member that has the key `key` is inserting into the
/// mapping.
proof fn lemma_replace_last(
    members: Seq<(Seq<char>, ValueView)>,
    at: int,
    key: Seq<char>,
    value: ValueView,
)
    requires
        0 <= at < members.len(),
        members[at].0 == key,
        forall|k: int| at < k < members.len() ==> members[k].0 != key,
    ensures
        members_map(members.update(at, (key, value))) == members_map(members).insert(key, value),
    decreases members.len(),
{
    let changed = members.update(at, (key, value));
    let last = members.last();
    if at == members.len() - 1 {
        assert(changed.drop_last() =~= members.drop_last());
        assert(members_map(changed) =~= members_map(members).insert(key, value));
    } else {
        lemma_replace_last(members.drop_last(), at, key, value);
        assert(changed.drop_last() =~= members.drop_last().update(at, (key, value)));
        assert(changed.last() == last);
        assert(members_map(changed) =~= members_map(members).insert(key, value));
    }
}

/// The place of the last member with the key `key`, if there is one.
pub open spec fn last_member(members: Seq<(String, Value)>, key: Seq<char>) -> Option<int>
    decreases members.len(),
{
    if members.len() == 0 {
        None
    } else if members.last().0@ == key {
        Some(members.len() - 1)
    } else {
        last_member(members.drop_last(), key)
    }
}

/// What the last member with the key `key` is for the mapping of the members:
/// it gives the key its value, and a key that no member has is not in the
/// mapping.
pub proof fn lemma_last_member(members: Seq<(String, Value)>, key: Seq<char>)
    ensures
        match last_member(members, key) {
            Some(at) => {
                &&& 0 <= at < members.len()
                &&& members[at].0@ == key
                &&& members_map(member_views(members)).contains_key(key)
                &&& members_map(member_views(members))[key] == members[at].1@
            },
            None => {
                &&& !members_map(member_views(members)).contains_key(key)
                &&& forall|i: int| 0 <= i < members.len() ==> (#[trigger] members[i]).0@ != key
            },
        },
    decreases members.len(),
{
    if members.len() > 0 {
        let front = members.drop_last();
        assert(member_views(members).drop_last() =~= member_views(front));
        if members.last().0@ != key {
            lemma_last_member(front, key);
            match last_member(front, key) {
                Some(at) => {
                    assert(front[at] == members[at]);
                },
                None => {
                    assert forall|i: int| 0 <= i < members.len() implies (
                    #[trigger] members[i]).0@ != key by {
                        if i < front.len() {
                            assert(front[i] == members[i]);
                        }
                    }
                },
            }
        }
    }
}

/// Looks for the last member with the key `key`.
pub fn find_member(members: &Vec<(String, Value)>, key: &String) -> (r: Option<usize>)
    ensures
        match r {
            Some(at) => last_member(members@, key@) == Some(at as int),
            None => last_member(members@, key@) is None,
        },
{
    let mut at = members.len();
    assert(members@.take(at as int) =~= members@);
    while at > 0
        invariant
            at <= members.len(),
            last_member(members@, key@) == last_member(members@.take(at as int), key@),
        decreases at,
    {
        at -= 1;
        assert(members@.take(at + 1).drop_last() =~= members@.take(at as int));
        if members[at].0 == *key {
            return Some(at);
        }
    }
    None
}

/// Sets the value of `key` among `members`: the last member with that key gets
/// the new value, and where there is none a new member is added at the end.
///
/// For the mapping that the members stand for, this is an insertion.
pub fn insert_member(members: &mut Vec<(String, Value)>, key: String, value: Value)
    ensures
        match last_member(old(members)@, key@) {
            Some(at) => final(members)@ == old(members)@.update(at, (key, value)),
            None => final(members)@ == old(members)@.push((key, value)),
        },
        members_map(member_views(final(members)@)) == members_map(
            member_views(old(members)@),
        ).insert(key@, value@),
        keys_unique(member_views(old(members)@)) ==> keys_unique(member_views(final(members)@)),
{
    let ghost views = member_views(members@);
    proof {
        lemma_last_member(members@, key@);
    }
    match find_member(members, &key) {
        Some(at) => {
            proof {
                assert(views[at as int].0 == key@);
                assert forall|k: int| at < k < views.len() implies views[k].0 != key@ by {
                    lemma_later_members(members@, key@, k);
                }
                lemma_replace_last(views, at as int, key@, value@);
            }
            members.set(at, (key, value));
            assert(member_views(members@) =~= views.update(at as int, (key@, value@)));
        },
        None => {
            members.push((key, value));
            assert(member_views(members@) =~= views.push((key@, value@)));
            assert(views.push((key@, value@)).drop_last() =~= views);
        },
    }
}

/// No member behind the last member with the key `key` has that key.
proof fn lemma_later_members(members: Seq<(String, Value)>, key: Seq<char>, k: int)
    requires
        0 <= k,
        last_member(members, key) matches Some(at) && at < k < members.len(),
    ensures
        members[k].0@ != key,
    decreases members.len(),
{
    if members.last().0@ != key {
        if k < members.len() - 1 {
            lemma_later_members(members.drop_last(), key, k);
            assert(members.drop_last()[k] == members[k]);
        }
    }
}

/// Both lists of members have a member with the key `key`, and the last ones
/// have the same value.
pub open spec fn agree_on(
    a: Seq<(String, Value)>,
    b: Seq<(String, Value)>,
    key: Seq<char>,
) -> bool {
    match (last_member(a, key), last_member(b, key)) {
        (Some(i), Some(j)) => a[i].1@ == b[j].1@,
        _ => false,
    }
}

impl PartialEq for Value {
    /// Two values are equal where they stand for the same mathematical value:
    /// the order of the members of an object does not count.
    fn eq(&self, other: &Value) -> (r: bool)
        decreases self,
    {
        match self {
            Value::Null => match other {
                Value::Null => true,
                _ => false,
            },
            Value::Boolean(a) => match other {
                Value::Boolean(b) => *a == *b,
                _ => false,
            },
            Value::Number(a) => match other {
                Value::Number(b) => a.eq(b),
                _ => false,
            },
            Value::String(a) => match other {
                Value::String(b) => a.eq(b),
                _ => false,
            },
            Value::Array(a) => match other {
                Value::Array(b) => {
                    if a.len() != b.len() {
                        assert(item_views(a@).len() != item_views(b@).len());
                        return false;
                    }
                    let mut i: usize = 0;
                    while i < a.len()
                        invariant
                            i <= a.len(),
                            a.len() == b.len(),
                            self == Value::Array(*a),
                            other == Value::Array(*b),
                            forall|k: int| 0 <= k < i ==> (#[trigger] a@[k])@ == b@[k]@,
                        decreases a.len() - i,
                    {
                        assert(decreases_to!(self => a@[i as int])) by {
                            assert(decreases_to!(self => self->Array_0));
                            assert(decreases_to!(self->Array_0 => self->Array_0@));
                            assert(decreases_to!(self->Array_0@ => self->Array_0@[i as int]));
                        }
                        if !a[i].eq(&b[i]) {
                            assert(item_views(a@)[i as int] != item_views(b@)[i as int]);
                            return false;
                        }
                        i += 1;
                    }
                    assert(item_views(a@) =~= item_views(b@));
                    true
                },
                _ => false,
            },
            Value::Object(a) => match other {
                Value::Object(b) => {
                    let ghost ours = members_map(member_views(a@));
                    let ghost theirs = members_map(member_views(b@));
                    let mut i: usize = 0;
                    while i < a.len()
                        invariant
                            i <= a.len(),
                            self == Value::Object(*a),
                            other == Value::Object(*b),
                            ours == members_map(member_views(a@)),
                            theirs == members_map(member_views(b@)),
                            forall|k: int| 0 <= k < i ==> agree_on(a@, b@, (#[trigger] a@[k]).0@),
                        decreases a.len() - i,
                    {
                        proof {
                            lemma_last_member(a@, a@[i as int].0@);
                            lemma_last_member(b@, a@[i as int].0@);
                        }
                        let same = match find_member(a, &a[i].0) {
                            Some(at) => match find_member(b, &a[i].0) {
                                Some(to) => {
                                    assert(decreases_to!(self => a@[at as int].1)) by {
                                        let member = self->Object_0@[at as int];
                                        assert(decreases_to!(self => self->Object_0));
                                        assert(decreases_to!(self->Object_0 => self->Object_0@));
                                        assert(decreases_to!(self->Object_0@ => member));
                                        assert(decreases_to!(member => member.1));
                                    }
                                    a[at].1.eq(&b[to].1)
                                },
                                None => false,
                            },
                            None => false,
                        };
                        if !same {
                            assert(ours != theirs) by {
                                let key = a@[i as int].0@;
                                if theirs.contains_key(key) {
                                    assert(ours[key] != theirs[key]);
                                }
                            }
                            return false;
                        }
                        i += 1;
                    }
                    let mut j: usize = 0;
                    while j < b.len()
                        invariant
                            j <= b.len(),
                            self == Value::Object(*a),
                            other == Value::Object(*b),
                            ours == members_map(member_views(a@)),
                            theirs == members_map(member_views(b@)),
                            forall|k: int|
                                0 <= k < a.len() ==> agree_on(a@, b@, (#[trigger] a@[k]).0@),
                            forall|k: int|
                                0 <= k < j ==> last_member(a@, (#[trigger] b@[k]).0@) is Some,
                        decreases b.len() - j,
                    {
                        proof {
                            lemma_last_member(a@, b@[j as int].0@);
                            lemma_last_member(b@, b@[j as int].0@);
                        }
                        if find_member(a, &b[j].0).is_none() {
                            assert(theirs.contains_key(b@[j as int].0@));
                            return false;
                        }
                        j += 1;
                    }
                    proof {
                        assert forall|key: Seq<char>| #[trigger]
                            ours.dom().contains(key) implies theirs.dom().contains(key)
                            && ours[key] == theirs[key] by {
                            lemma_last_member(a@, key);
                            lemma_last_member(b@, key);
                            let at = last_member(a@, key)->0;
                            assert(agree_on(a@, b@, a@[at].0@));
                        }
                        assert forall|key: Seq<char>| #[trigger]
                            theirs.dom().contains(key) implies ours.dom().contains(key) by {
                            lemma_last_member(a@, key);
                            lemma_last_member(b@, key);
                            let to = last_member(b@, key)->0;
                            assert(last_member(a@, b@[to].0@) is Some);
                        }
                        assert(ours =~= theirs);
                    }
                    true
                },
                _ => false,
            },
        }
    }
}

impl vstd::std_specs::cmp::PartialEqSpecImpl for Value {
    open spec fn obeys_eq_spec() -> bool {
        true
    }

    open spec fn eq_spec(&self, other: &Value) -> bool {
        self@ == other@
    }
}

} // verus!
