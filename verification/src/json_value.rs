//! The JSON document model: values, ordered objects and their mathematical view.
//!
//! Objects keep their members ordered by key, the way an ordered map of string
//! keys does: keys compare character by character by code point (which is the
//! byte order of their UTF-8 encoding), and a key that is a proper prefix of
//! another sorts first.

use vstd::prelude::*;
use crate::text::chars_of;
use vstd::std_specs::cmp::PartialEqSpecImpl;

verus! {

/// A JSON number, as the three representations a parser distinguishes.
///
/// Two numbers are equal when they have the same representation and the same
/// value: integers by value, fractional numbers as binary64 values compare
/// (the two zeros are equal, and a NaN equals nothing).
#[derive(Debug, Clone, Copy)]
pub enum JsonNumber {
    /// A non-negative integer.
    PosInt(u64),
    /// A negative integer.
    NegInt(i64),
    /// A fractional number, held as its IEEE-754 binary64 bit pattern.
    FloatBits(u64),
}

/// The bits of a binary64 value without its sign.
pub open spec fn float_magnitude(bits: u64) -> u64 {
    bits & 0x7fff_ffff_ffff_ffffu64
}

/// The binary64 value with bit pattern `bits` is a NaN: all exponent bits set
/// and a nonzero fraction.
pub open spec fn float_is_nan(bits: u64) -> bool {
    float_magnitude(bits) > 0x7ff0_0000_0000_0000u64
}

/// The binary64 values with bit patterns `a` and `b` compare equal: neither is
/// a NaN, and they have the same bits or are both zero.
pub open spec fn float_bits_equal(a: u64, b: u64) -> bool {
    !float_is_nan(a) && !float_is_nan(b) && (a == b || (float_magnitude(a) == 0
        && float_magnitude(b) == 0))
}

/// Equality of numbers: the same representation and the same value.
pub open spec fn number_equal(x: JsonNumber, y: JsonNumber) -> bool {
    match (x, y) {
        (JsonNumber::PosInt(a), JsonNumber::PosInt(b)) => a == b,
        (JsonNumber::NegInt(a), JsonNumber::NegInt(b)) => a == b,
        (JsonNumber::FloatBits(a), JsonNumber::FloatBits(b)) => float_bits_equal(a, b),
        _ => false,
    }
}

impl PartialEq for JsonNumber {
    fn eq(&self, other: &Self) -> (r: bool) {
        match (self, other) {
            (JsonNumber::PosInt(a), JsonNumber::PosInt(b)) => *a == *b,
            (JsonNumber::NegInt(a), JsonNumber::NegInt(b)) => *a == *b,
            (JsonNumber::FloatBits(a), JsonNumber::FloatBits(b)) => {
                let ma = *a & 0x7fff_ffff_ffff_ffffu64;
                let mb = *b & 0x7fff_ffff_ffff_ffffu64;
                ma <= 0x7ff0_0000_0000_0000u64 && mb <= 0x7ff0_0000_0000_0000u64 && (*a == *b
                    || (ma == 0 && mb == 0))
            },
            _ => false,
        }
    }
}

impl PartialEqSpecImpl for JsonNumber {
    open spec fn obeys_eq_spec() -> bool {
        true
    }

    open spec fn eq_spec(&self, other: &Self) -> bool {
        number_equal(*self, *other)
    }
}

impl Eq for JsonNumber {}

/// A JSON value.
#[derive(Debug, PartialEq)]
pub enum JsonValue {
    Null,
    Bool(bool),
    Number(JsonNumber),
    String(String),
    Array(Vec<JsonValue>),
    Object(JsonMap),
}

/// A JSON object: members ordered by strictly increasing key.
#[derive(Debug, PartialEq)]
pub struct JsonMap {
    entries: Vec<(String, JsonValue)>,
}

/// The mathematical view of a JSON value.
pub enum JsonView {
    Null,
    Bool(bool),
    Number(JsonNumber),
    Str(Seq<char>),
    Array(Seq<JsonView>),
    Object(Seq<(Seq<char>, JsonView)>),
}

/// The view of a value.
pub open spec fn value_view(v: JsonValue) -> JsonView
    decreases v,
{
    match v {
        JsonValue::Null => JsonView::Null,
        JsonValue::Bool(b) => JsonView::Bool(b),
        JsonValue::Number(n) => JsonView::Number(n),
        JsonValue::String(s) => JsonView::Str(s@),
        JsonValue::Array(a) => JsonView::Array(array_view(a@)),
        JsonValue::Object(m) => JsonView::Object(m.entries_model()),
    }
}

/// The views of a sequence of values, element by element.
pub open spec fn array_view(s: Seq<JsonValue>) -> Seq<JsonView>
    decreases s,
{
    if s.len() == 0 {
        Seq::empty()
    } else {
        array_view(s.drop_last()).push(value_view(s.last()))
    }
}

/// The views of a sequence of object members, member by member.
spec fn entries_view(s: Seq<(String, JsonValue)>) -> Seq<(Seq<char>, JsonView)>
    decreases s,
{
    if s.len() == 0 {
        Seq::empty()
    } else {
        entries_view(s.drop_last()).push((s.last().0@, value_view(s.last().1)))
    }
}

/// Element `i` of the view of a sequence of values is the view of element `i`.
pub broadcast proof fn lemma_array_view(s: Seq<JsonValue>)
    ensures
        #[trigger] array_view(s) == s.map_values(|x: JsonValue| value_view(x)),
    decreases s.len(),
{
    if s.len() > 0 {
        lemma_array_view(s.drop_last());
        assert(array_view(s) =~= s.map_values(|x: JsonValue| value_view(x)));
    } else {
        assert(array_view(s) =~= s.map_values(|x: JsonValue| value_view(x)));
    }
}

proof fn lemma_entries_view(s: Seq<(String, JsonValue)>)
    ensures
        entries_view(s) == s.map_values(|p: (String, JsonValue)| (p.0@, value_view(p.1))),
    decreases s.len(),
{
    if s.len() > 0 {
        lemma_entries_view(s.drop_last());
    }
    assert(entries_view(s) =~= s.map_values(|p: (String, JsonValue)| (p.0@, value_view(p.1))));
}

/// `lookup` skips a prefix of members none of which has the key.
pub proof fn lemma_lookup_skip(members: Seq<(Seq<char>, JsonView)>, key: Seq<char>, n: int)
    requires
        0 <= n <= members.len(),
        forall|j: int| 0 <= j < n ==> (#[trigger] members[j]).0 != key,
    ensures
        lookup(members, key) == lookup(members.skip(n), key),
    decreases n,
{
    if n > 0 {
        let rest = members.drop_first();
        assert forall|j: int| 0 <= j < n - 1 implies (#[trigger] rest[j]).0 != key by {
            assert(rest[j] == members[j + 1]);
        }
        lemma_lookup_skip(rest, key, n - 1);
        assert(rest.skip(n - 1) =~= members.skip(n));
    } else {
        assert(members.skip(0) =~= members);
    }
}

/// The keys of `a` and `b` compared by `key_lt`.
pub fn key_less(a: &str, b: &str) -> (less: bool)
    ensures
        less == key_lt(a@, b@),
{
    let ca = chars_of(a);
    let cb = chars_of(b);
    let mut i: usize = 0;
    assert(a@.skip(0) =~= a@);
    assert(b@.skip(0) =~= b@);
    while i < ca.len() && i < cb.len()
        invariant
            ca@ == a@,
            cb@ == b@,
            i <= ca.len(),
            i <= cb.len(),
            key_lt(a@, b@) == key_lt(a@.skip(i as int), b@.skip(i as int)),
        decreases ca.len() - i,
    {
        let x = ca[i];
        let y = cb[i];
        if x != y {
            return x < y;
        }
        assert(a@.skip(i as int).drop_first() =~= a@.skip(i + 1));
        assert(b@.skip(i as int).drop_first() =~= b@.skip(i + 1));
        i = i + 1;
    }
    i < cb.len()
}

impl JsonMap {
    /// The members of the object, as (key, value) pairs in order.
    pub closed spec fn entries_model(self) -> Seq<(Seq<char>, JsonView)>
        decreases self,
    {
        entries_view(self.entries@)
    }
}

/// Strict order on object keys: lexicographic by code point, a proper prefix first.
pub open spec fn key_lt(a: Seq<char>, b: Seq<char>) -> bool
    decreases a.len(),
{
    if b.len() == 0 {
        false
    } else if a.len() == 0 {
        true
    } else if a[0] != b[0] {
        a[0] < b[0]
    } else {
        key_lt(a.drop_first(), b.drop_first())
    }
}

/// The keys of `members` strictly increase.
pub open spec fn keys_increasing(members: Seq<(Seq<char>, JsonView)>) -> bool {
    forall|i: int, j: int| 0 <= i < j < members.len() ==> key_lt(members[i].0, members[j].0)
}

/// The value of the first member of `members` whose key is `key`.
pub open spec fn lookup(members: Seq<(Seq<char>, JsonView)>, key: Seq<char>) -> Option<JsonView>
    decreases members.len(),
{
    if members.len() == 0 {
        None
    } else if members[0].0 == key {
        Some(members[0].1)
    } else {
        lookup(members.drop_first(), key)
    }
}

/// The members after setting `key` to `value` in an ordered object: a member
/// with that key gets the new value in place; otherwise the new member goes
/// before the first member whose key is greater.
pub open spec fn map_insert(
    members: Seq<(Seq<char>, JsonView)>,
    key: Seq<char>,
    value: JsonView,
) -> Seq<(Seq<char>, JsonView)>
    decreases members.len(),
{
    if members.len() == 0 {
        seq![(key, value)]
    } else if members[0].0 == key {
        seq![(key, value)] + members.drop_first()
    } else if key_lt(key, members[0].0) {
        seq![(key, value)] + members
    } else {
        seq![members[0]] + map_insert(members.drop_first(), key, value)
    }
}

/// No key is below itself.
pub proof fn lemma_key_lt_irreflexive(a: Seq<char>)
    ensures
        !key_lt(a, a),
    decreases a.len(),
{
    if a.len() > 0 {
        lemma_key_lt_irreflexive(a.drop_first());
    }
}

/// Two distinct keys are ordered one way or the other, and never both ways.
pub proof fn lemma_key_lt_total(a: Seq<char>, b: Seq<char>)
    ensures
        a != b ==> key_lt(a, b) || key_lt(b, a),
        !(key_lt(a, b) && key_lt(b, a)),
    decreases a.len(),
{
    if a.len() > 0 && b.len() > 0 && a[0] == b[0] {
        lemma_key_lt_total(a.drop_first(), b.drop_first());
        if a.drop_first() =~= b.drop_first() {
            assert forall|i: int| 0 <= i < a.len() implies a[i] == b[i] by {
                if i > 0 {
                    assert(a[i] == a.drop_first()[i - 1]);
                    assert(b[i] == b.drop_first()[i - 1]);
                }
            }
            assert(a =~= b);
        }
    }
    if a.len() == 0 && b.len() == 0 {
        assert(a =~= b);
    }
}

/// The key order is transitive.
pub proof fn lemma_key_lt_transitive(a: Seq<char>, b: Seq<char>, c: Seq<char>)
    requires
        key_lt(a, b),
        key_lt(b, c),
    ensures
        key_lt(a, c),
    decreases a.len(),
{
    if a.len() > 0 && a[0] == b[0] && b[0] == c[0] {
        lemma_key_lt_transitive(a.drop_first(), b.drop_first(), c.drop_first());
    }
}

/// Keys are ordered by their first differing character, compared by code
/// point.
pub proof fn lemma_key_lt_first_difference(a: Seq<char>, b: Seq<char>, i: int)
    requires
        0 <= i < a.len(),
        i < b.len(),
        forall|j: int| 0 <= j < i ==> a[j] == b[j],
        a[i] != b[i],
    ensures
        key_lt(a, b) == (a[i] < b[i]),
    decreases i,
{
    if i > 0 {
        assert(a[0] == b[0]);
        let (ta, tb) = (a.drop_first(), b.drop_first());
        assert forall|j: int| 0 <= j < i - 1 implies ta[j] == tb[j] by {
            assert(ta[j] == a[j + 1]);
            assert(tb[j] == b[j + 1]);
        }
        lemma_key_lt_first_difference(ta, tb, i - 1);
    }
}

/// A key that is a proper prefix of another comes before it.
pub proof fn lemma_key_lt_proper_prefix(a: Seq<char>, b: Seq<char>)
    requires
        a.len() < b.len(),
        forall|j: int| 0 <= j < a.len() ==> a[j] == b[j],
    ensures
        key_lt(a, b),
        !key_lt(b, a),
    decreases a.len(),
{
    if a.len() > 0 {
        let (ta, tb) = (a.drop_first(), b.drop_first());
        assert forall|j: int| 0 <= j < ta.len() implies ta[j] == tb[j] by {
            assert(ta[j] == a[j + 1]);
            assert(tb[j] == b[j + 1]);
        }
        assert(a[0] == b[0]);
        lemma_key_lt_proper_prefix(ta, tb);
    }
}

/// Where `map_insert` puts the member: at the first position whose key is not
/// below `key`, replacing the member there when its key is `key`.
pub proof fn lemma_map_insert_at(
    members: Seq<(Seq<char>, JsonView)>,
    key: Seq<char>,
    value: JsonView,
    pos: int,
)
    requires
        0 <= pos <= members.len(),
        forall|j: int| 0 <= j < pos ==> key_lt(#[trigger] members[j].0, key),
        pos < members.len() ==> !key_lt(members[pos].0, key),
    ensures
        map_insert(members, key, value) == if pos < members.len() && members[pos].0 == key {
            members.update(pos, (key, value))
        } else {
            members.insert(pos, (key, value))
        },
    decreases members.len(),
{
    if members.len() == 0 {
        assert(members.insert(pos, (key, value)) =~= seq![(key, value)]);
    } else if pos == 0 {
        if members[0].0 == key {
            assert(members.update(0, (key, value)) =~= seq![(key, value)] + members.drop_first());
        } else {
            lemma_key_lt_total(members[0].0, key);
            assert(members.insert(0, (key, value)) =~= seq![(key, value)] + members);
        }
    } else {
        let first = members[0];
        assert(key_lt(first.0, key));
        lemma_key_lt_irreflexive(key);
        lemma_key_lt_total(first.0, key);
        let rest = members.drop_first();
        assert forall|j: int| 0 <= j < pos - 1 implies key_lt(#[trigger] rest[j].0, key) by {
            assert(rest[j] == members[j + 1]);
        }
        lemma_map_insert_at(rest, key, value, pos - 1);
        if pos < members.len() && members[pos].0 == key {
            assert(seq![first] + rest.update(pos - 1, (key, value)) =~= members.update(
                pos,
                (key, value),
            ));
        } else {
            assert(seq![first] + rest.insert(pos - 1, (key, value)) =~= members.insert(
                pos,
                (key, value),
            ));
        }
    }
}

/// Reading a key after setting it gives the value set; reading any other key
/// gives what it gave before.
pub proof fn lemma_lookup_map_insert(
    members: Seq<(Seq<char>, JsonView)>,
    key: Seq<char>,
    value: JsonView,
    other: Seq<char>,
)
    ensures
        lookup(map_insert(members, key, value), key) == Some(value),
        other != key ==> lookup(map_insert(members, key, value), other) == lookup(members, other),
    decreases members.len(),
{
    let r = map_insert(members, key, value);
    if members.len() == 0 {
        assert(r[0] == (key, value));
        assert(r.drop_first() =~= Seq::<(Seq<char>, JsonView)>::empty());
        assert(lookup(r.drop_first(), other) is None);
    } else if members[0].0 == key {
        assert(r[0] == (key, value));
        assert(r.drop_first() =~= members.drop_first());
        if other != key {
            assert(lookup(r, other) == lookup(r.drop_first(), other));
            assert(lookup(members, other) == lookup(members.drop_first(), other));
        }
    } else if key_lt(key, members[0].0) {
        assert(r[0] == (key, value));
        assert(r.drop_first() =~= members);
    } else {
        lemma_lookup_map_insert(members.drop_first(), key, value, other);
        assert(r[0] == members[0]);
        assert(r.drop_first() =~= map_insert(members.drop_first(), key, value));
        if other != key && members[0].0 != other {
            assert(lookup(r, other) == lookup(r.drop_first(), other));
            assert(lookup(members, other) == lookup(members.drop_first(), other));
        }
    }
}

/// In an ordered object, setting a key whose value was moved out gives the
/// same members as setting it in the object as it was.
pub proof fn lemma_map_insert_after_take(
    members: Seq<(Seq<char>, JsonView)>,
    pos: int,
    key: Seq<char>,
    taken: JsonView,
    value: JsonView,
)
    requires
        keys_increasing(members),
        0 <= pos < members.len(),
        members[pos].0 == key,
    ensures
        map_insert(members.update(pos, (key, taken)), key, value) == map_insert(
            members,
            key,
            value,
        ),
{
    let changed = members.update(pos, (key, taken));
    lemma_key_lt_irreflexive(key);
    assert forall|j: int| 0 <= j < pos implies key_lt(#[trigger] members[j].0, key) by {}
    assert forall|j: int| 0 <= j < pos implies key_lt(#[trigger] changed[j].0, key) by {
        assert(changed[j] == members[j]);
    }
    lemma_map_insert_at(members, key, value, pos);
    lemma_map_insert_at(changed, key, value, pos);
    assert(changed.update(pos, (key, value)) =~= members.update(pos, (key, value)));
}

/// Setting a key keeps the keys of an ordered object strictly increasing.
pub proof fn lemma_map_insert_keeps_order(
    members: Seq<(Seq<char>, JsonView)>,
    key: Seq<char>,
    value: JsonView,
)
    requires
        keys_increasing(members),
    ensures
        keys_increasing(map_insert(members, key, value)),
    decreases members.len(),
{
    if members.len() > 0 && members[0].0 != key && !key_lt(key, members[0].0) {
        let rest = members.drop_first();
        lemma_map_insert_keeps_order(rest, key, value);
        lemma_map_insert_members(rest, key, value);
        lemma_key_lt_total(members[0].0, key);
        let r = map_insert(members, key, value);
        let rr = map_insert(rest, key, value);
        assert(r == seq![members[0]] + rr);
        assert forall|i: int, j: int| 0 <= i < j < r.len() implies key_lt(r[i].0, r[j].0) by {
            if i == 0 {
                assert(r[j] == rr[j - 1]);
                if rr[j - 1].0 != key {
                    let t = choose|t: int| 0 <= t < rest.len() && rest[t].0 == rr[j - 1].0;
                    assert(rest[t] == members[t + 1]);
                } 
            }
        }
    } else if members.len() > 0 && members[0].0 != key {
        let r = map_insert(members, key, value);
        assert forall|i: int, j: int| 0 <= i < j < r.len() implies key_lt(r[i].0, r[j].0) by {
            if i == 0 && j > 1 {
                lemma_key_lt_transitive(key, members[0].0, members[j - 1].0);
            }
        }
    } else if members.len() > 0 {
        let r = map_insert(members, key, value);
        assert forall|i: int, j: int| 0 <= i < j < r.len() implies key_lt(r[i].0, r[j].0) by {
            assert(r[i].0 == members[i].0);
            assert(r[j].0 == members[j].0);
        }
    }
}

/// The keys after `map_insert` are the old keys together with `key`.
pub proof fn lemma_map_insert_members(
    members: Seq<(Seq<char>, JsonView)>,
    key: Seq<char>,
    value: JsonView,
)
    ensures
        forall|i: int|
            0 <= i < map_insert(members, key, value).len() ==> (#[trigger] map_insert(
                members,
                key,
                value,
            )[i]).0 == key || exists|t: int|
                0 <= t < members.len() && members[t].0 == map_insert(members, key, value)[i].0,
    decreases members.len(),
{
    if members.len() > 0 && members[0].0 != key && !key_lt(key, members[0].0) {
        let rest = members.drop_first();
        lemma_map_insert_members(rest, key, value);
        let r = map_insert(members, key, value);
        let rr = map_insert(rest, key, value);
        assert forall|i: int| 0 <= i < r.len() implies (#[trigger] r[i]).0 == key || exists|t: int|
            0 <= t < members.len() && members[t].0 == r[i].0 by {
            if i == 0 {
                assert(members[0].0 == r[0].0);
            } else {
                assert(r[i] == rr[i - 1]);
                if rr[i - 1].0 != key {
                    let t = choose|t: int| 0 <= t < rest.len() && rest[t].0 == rr[i - 1].0;
                    assert(members[t + 1] == rest[t]);
                }
            }
        }
    } else if members.len() > 0 {
        let r = map_insert(members, key, value);
        assert forall|i: int| 0 <= i < r.len() implies (#[trigger] r[i]).0 == key || exists|t: int|
            0 <= t < members.len() && members[t].0 == r[i].0 by {
            if i > 0 {
                if members[0].0 == key {
                    assert(members[i].0 == r[i].0);
                } else {
                    assert(members[i - 1].0 == r[i].0);
                }
            }
        }
    }
}

impl JsonMap {
    /// Members are kept in strictly increasing key order.
    #[verifier::type_invariant]
    spec fn keys_ordered(self) -> bool {
        keys_increasing(self.entries_model())
    }

    /// An empty object.
    pub fn new() -> (map: Self)
        ensures
            map@ == Seq::<(Seq<char>, JsonView)>::empty(),
    {
        let map = JsonMap { entries: Vec::new() };
        proof {
            lemma_entries_view(map.entries@);
        }
        map
    }

    /// The number of members.
    pub fn len(&self) -> (n: usize)
        ensures
            n == self@.len(),
            keys_increasing(self@),
    {
        proof {
            use_type_invariant(self);
            lemma_entries_view(self.entries@);
        }
        self.entries.len()
    }

    /// The key of member `i`.
    pub fn key_at(&self, i: usize) -> (key: &String)
        requires
            i < self@.len(),
        ensures
            key@ == self@[i as int].0,
    {
        proof {
            lemma_entries_view(self.entries@);
        }
        &self.entries[i].0
    }

    /// The value of member `i`.
    pub fn value_at(&self, i: usize) -> (value: &JsonValue)
        requires
            i < self@.len(),
        ensures
            value@ == self@[i as int].1,
    {
        proof {
            lemma_entries_view(self.entries@);
        }
        &self.entries[i].1
    }

    /// The position of the member whose key is `key`, if there is one.
    pub fn find(&self, key: &str) -> (pos: Option<usize>)
        ensures
            keys_increasing(self@),
            match pos {
                Some(i) => i < self@.len() && self@[i as int].0 == key@ && lookup(self@, key@)
                    == Some(self@[i as int].1),
                None => lookup(self@, key@) is None,
            },
    {
        proof {
            use_type_invariant(self);
            lemma_entries_view(self.entries@);
        }
        let k = key.to_owned();
        let mut i: usize = 0;
        while i < self.entries.len()
            invariant
                i <= self.entries@.len(),
                self@ == self.entries@.map_values(|p: (String, JsonValue)| (p.0@, value_view(p.1))),
                k@ == key@,
                keys_increasing(self@),
                forall|j: int| 0 <= j < i ==> (#[trigger] self@[j]).0 != key@,
            decreases self.entries@.len() - i,
        {
            if self.entries[i].0 == k {
                proof {
                    lemma_lookup_skip(self@, key@, i as int);
                }
                return Some(i);
            }
            i = i + 1;
        }
        proof {
            lemma_lookup_skip(self@, key@, i as int);
        }
        None
    }

    /// The value of the member whose key is `key`, if there is one.
    pub fn get(&self, key: &str) -> (value: Option<&JsonValue>)
        ensures
            match value {
                Some(v) => lookup(self@, key@) == Some(v@),
                None => lookup(self@, key@) is None,
            },
    {
        match self.find(key) {
            Some(i) => Some(self.value_at(i)),
            None => None,
        }
    }

    /// Moves the value of member `i` out, leaving `Null` in its place.
    pub fn take_value(&mut self, i: usize) -> (value: JsonValue)
        requires
            i < old(self)@.len(),
        ensures
            value@ == old(self)@[i as int].1,
            final(self)@ == old(self)@.update(i as int, (old(self)@[i as int].0, JsonView::Null)),
            keys_increasing(old(self)@),
    {
        proof {
            use_type_invariant(&*self);
            lemma_entries_view(self.entries@);
        }
        let ghost before = self@;
        let mut entries: Vec<(String, JsonValue)> = Vec::new();
        std::mem::swap(&mut entries, &mut self.entries);
        let (key, value) = entries.remove(i);
        entries.insert(i, (key, JsonValue::Null));
        proof {
            lemma_entries_view(entries@);
            assert(entries_view(entries@) =~= before.update(i as int, (before[i as int].0, JsonView::Null)));
        }
        self.entries = entries;
        value
    }

    /// Sets member `key` to `value`, keeping the members ordered by key;
    /// returns the value the key had before, if any.
    pub fn insert(&mut self, key: String, value: JsonValue) -> (previous: Option<JsonValue>)
        ensures
            final(self)@ == map_insert(old(self)@, key@, value@),
            match previous {
                Some(p) => lookup(old(self)@, key@) == Some(p@),
                None => lookup(old(self)@, key@) is None,
            },
    {
        proof {
            use_type_invariant(&*self);
            lemma_entries_view(self.entries@);
        }
        let ghost before = self@;
        let ghost new_value = value@;
        let mut entries: Vec<(String, JsonValue)> = Vec::new();
        std::mem::swap(&mut entries, &mut self.entries);
        let n = entries.len();
        let mut p: usize = 0;
        while p < n
            invariant_except_break
                p <= n,
                n == entries@.len(),
                before == entries@.map_values(|q: (String, JsonValue)| (q.0@, value_view(q.1))),
                forall|j: int| 0 <= j < p ==> key_lt(#[trigger] before[j].0, key@),
            ensures
                p <= n,
                n == entries@.len(),
                before == entries@.map_values(|q: (String, JsonValue)| (q.0@, value_view(q.1))),
                forall|j: int| 0 <= j < p ==> key_lt(#[trigger] before[j].0, key@),
                p < n ==> !key_lt(before[p as int].0, key@),
            decreases n - p,
        {
            if !key_less(entries[p].0.as_str(), key.as_str()) {
                break;
            }
            p = p + 1;
        }
        proof {
            lemma_map_insert_at(before, key@, new_value, p as int);
            lemma_map_insert_keeps_order(before, key@, new_value);
            lemma_key_lt_irreflexive(key@);
            assert forall|j: int| 0 <= j < p implies (#[trigger] before[j]).0 != key@ by {
                assert(key_lt(before[j].0, key@));
            }
            lemma_lookup_skip(before, key@, p as int);
        }
        let previous;
        if p < n && entries[p].0 == key {
            let (_, old_value) = entries.remove(p);
            entries.insert(p, (key, value));
            previous = Some(old_value);
        } else {
            proof {
                if p < n {
                    lemma_key_lt_total(before[p as int].0, key@);
                    assert forall|j: int| p <= j < n implies (#[trigger] before[j]).0 != key@ by {
                        if j > p {
                            lemma_key_lt_transitive(key@, before[p as int].0, before[j].0);
                            lemma_key_lt_irreflexive(key@);
                        }
                    }
                    lemma_lookup_skip(before, key@, n as int);
                }
            }
            entries.insert(p, (key, value));
            previous = None;
        }
        proof {
            lemma_entries_view(entries@);
            assert(entries_view(entries@) =~= map_insert(before, key@, new_value));
        }
        self.entries = entries;
        previous
    }
}

impl JsonValue {
    /// The value of member `key`, when this is an object that has one.
    pub fn get(&self, key: &str) -> (r: Option<&JsonValue>)
        ensures
            match self@ {
                JsonView::Object(m) => match r {
                    Some(x) => lookup(m, key@) == Some(x@),
                    None => lookup(m, key@) is None,
                },
                _ => r is None,
            },
    {
        match self {
            JsonValue::Object(m) => m.get(key),
            _ => None,
        }
    }

    /// The element at position `i`, when this is an array that long.
    pub fn get_index(&self, i: usize) -> (r: Option<&JsonValue>)
        ensures
            match self@ {
                JsonView::Array(a) => match r {
                    Some(x) => i < a.len() && x@ == a[i as int],
                    None => i >= a.len(),
                },
                _ => r is None,
            },
    {
        match self {
            JsonValue::Array(a) => {
                proof {
                    lemma_array_view(a@);
                }
                if i < a.len() {
                    Some(&a[i])
                } else {
                    None
                }
            },
            _ => None,
        }
    }
}

/// A copy of `v`.
fn clone_value(v: &JsonValue) -> (r: JsonValue)
    ensures
        r@ == v@,
    decreases v,
{
    match v {
        JsonValue::Null => JsonValue::Null,
        JsonValue::Bool(b) => JsonValue::Bool(*b),
        JsonValue::Number(n) => JsonValue::Number(*n),
        JsonValue::String(s) => JsonValue::String(s.clone()),
        JsonValue::Array(a) => {
            let mut out: Vec<JsonValue> = Vec::new();
            let mut i: usize = 0;
            while i < a.len()
                invariant
                    *v == JsonValue::Array(*a),
                    i <= a@.len(),
                    out@.len() == i,
                    forall|j: int| 0 <= j < i ==> (#[trigger] out@[j])@ == a@[j]@,
                decreases a@.len() - i,
            {
                proof {
                    assert(decreases_to!(*v => v->Array_0));
                    assert(decreases_to!(*a => a@));
                    assert(decreases_to!(a@ => a@[i as int]));
                }
                let x = clone_value(&a[i]);
                out.push(x);
                i = i + 1;
            }
            proof {
                lemma_array_view(out@);
                lemma_array_view(a@);
                assert(array_view(out@) =~= array_view(a@));
            }
            JsonValue::Array(out)
        },
        JsonValue::Object(m) => JsonValue::Object(clone_map(m)),
    }
}

/// A copy of the object `m`.
fn clone_map(m: &JsonMap) -> (r: JsonMap)
    ensures
        r@ == m@,
    decreases m,
{
    proof {
        use_type_invariant(m);
        lemma_entries_view(m.entries@);
    }
    let mut out: Vec<(String, JsonValue)> = Vec::new();
    let mut i: usize = 0;
    while i < m.entries.len()
        invariant
            i <= m.entries@.len(),
            out@.len() == i,
            forall|j: int|
                0 <= j < i ==> (#[trigger] out@[j]).0@ == m.entries@[j].0@ && out@[j].1@
                    == m.entries@[j].1@,
        decreases m.entries@.len() - i,
    {
        let key = m.entries[i].0.clone();
        let value = clone_value(&m.entries[i].1);
        out.push((key, value));
        i = i + 1;
    }
    proof {
        lemma_entries_view(out@);
        assert(entries_view(out@) =~= entries_view(m.entries@));
    }
    JsonMap { entries: out }
}

impl Clone for JsonValue {
    fn clone(&self) -> (r: Self)
        ensures
            r@ == self@,
    {
        clone_value(self)
    }
}

impl Clone for JsonMap {
    fn clone(&self) -> (r: Self)
        ensures
            r@ == self@,
    {
        clone_map(self)
    }
}

impl View for JsonValue {
    type V = JsonView;

    open spec fn view(&self) -> JsonView {
        value_view(*self)
    }
}

impl View for JsonMap {
    type V = Seq<(Seq<char>, JsonView)>;

    open spec fn view(&self) -> Seq<(Seq<char>, JsonView)> {
        self.entries_model()
    }
}

} // verus!
