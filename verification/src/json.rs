//! JSON data model: a value tree, its mathematical model, a compact serializer
//! and a parser. Record files in the store hold one serialized object per line.

use vstd::prelude::*;
use crate::trusted::chars_to_string;

verus! {

/// Mathematical model of a JSON value. Numbers keep their source lexeme.
#[verifier::ext_equal]
pub enum JsonSpec {
    Null,
    Bool(bool),
    Num(Seq<char>),
    Str(Seq<char>),
    Arr(Seq<JsonSpec>),
    Obj(Seq<(Seq<char>, JsonSpec)>),
}

/// A JSON value. Numbers keep the lexeme they were read with, so nothing is
/// lost to rounding; objects keep their members in arrival order, keys unique.
pub enum JsonValue {
    Null,
    Bool(bool),
    Num(String),
    Str(String),
    Arr(Vec<JsonValue>),
    Obj(Vec<(String, JsonValue)>),
}

/// Model of a [`JsonValue`].
pub open spec fn json_view(v: JsonValue) -> JsonSpec
    decreases v,
{
    match v {
        JsonValue::Null => JsonSpec::Null,
        JsonValue::Bool(b) => JsonSpec::Bool(b),
        JsonValue::Num(t) => JsonSpec::Num(t@),
        JsonValue::Str(t) => JsonSpec::Str(t@),
        JsonValue::Arr(items) => {
            proof {
                assert(decreases_to!(v => items));
                assert(decreases_to!(items => items@));
            }
            JsonSpec::Arr(arr_view(items@))
        },
        JsonValue::Obj(pairs) => {
            proof {
                assert(decreases_to!(v => pairs));
                assert(decreases_to!(pairs => pairs@));
            }
            JsonSpec::Obj(obj_view(pairs@))
        },
    }
}

/// Models of a sequence of values.
pub open spec fn arr_view(items: Seq<JsonValue>) -> Seq<JsonSpec>
    decreases items,
{
    if items.len() == 0 {
        Seq::empty()
    } else {
        proof {
            assert(decreases_to!(items => items[0]));
        }
        seq![json_view(items[0])] + arr_view(items.drop_first())
    }
}

/// Models of a sequence of keyed members.
pub open spec fn obj_view(pairs: Seq<(String, JsonValue)>) -> Seq<(Seq<char>, JsonSpec)>
    decreases pairs,
{
    if pairs.len() == 0 {
        Seq::empty()
    } else {
        proof {
            assert(decreases_to!(pairs => pairs[0]));
            assert(decreases_to!(pairs[0] => pairs[0].1));
        }
        seq![(pairs[0].0@, json_view(pairs[0].1))] + obj_view(pairs.drop_first())
    }
}

pub proof fn lemma_arr_view_index(items: Seq<JsonValue>)
    ensures
        arr_view(items).len() == items.len(),
        forall|i: int| 0 <= i < items.len() ==> #[trigger] arr_view(items)[i] == json_view(
            items[i],
        ),
    decreases items.len(),
{
    if items.len() > 0 {
        lemma_arr_view_index(items.drop_first());
        assert forall|i: int| 0 <= i < items.len() implies #[trigger] arr_view(items)[i]
            == json_view(items[i]) by {
            if i > 0 {
                assert(arr_view(items)[i] == arr_view(items.drop_first())[i - 1]);
                assert(items.drop_first()[i - 1] == items[i]);
            }
        }
    }
}

pub proof fn lemma_obj_view_index(pairs: Seq<(String, JsonValue)>)
    ensures
        obj_view(pairs).len() == pairs.len(),
        forall|i: int| 0 <= i < pairs.len() ==> #[trigger] obj_view(pairs)[i] == (
            pairs[i].0@,
            json_view(pairs[i].1),
        ),
    decreases pairs.len(),
{
    if pairs.len() > 0 {
        lemma_obj_view_index(pairs.drop_first());
        assert forall|i: int| 0 <= i < pairs.len() implies #[trigger] obj_view(pairs)[i] == (
            pairs[i].0@,
            json_view(pairs[i].1),
        ) by {
            if i > 0 {
                assert(obj_view(pairs)[i] == obj_view(pairs.drop_first())[i - 1]);
                assert(pairs.drop_first()[i - 1] == pairs[i]);
            }
        }
    }
}

impl View for JsonValue {
    type V = JsonSpec;

    open spec fn view(&self) -> JsonSpec {
        json_view(*self)
    }
}

/// First value bound to `key` among `pairs`.
pub open spec fn obj_lookup(pairs: Seq<(Seq<char>, JsonSpec)>, key: Seq<char>) -> Option<JsonSpec>
    decreases pairs.len(),
{
    if pairs.len() == 0 {
        None
    } else if pairs[0].0 == key {
        Some(pairs[0].1)
    } else {
        obj_lookup(pairs.drop_first(), key)
    }
}

/// Member of an object under `key`; `None` on other values or absent keys.
pub open spec fn json_get(v: JsonSpec, key: Seq<char>) -> Option<JsonSpec> {
    match v {
        JsonSpec::Obj(pairs) => obj_lookup(pairs, key),
        _ => None,
    }
}

impl JsonValue {
    /// The value is an object.
    pub open spec fn spec_is_object(&self) -> bool {
        self@ is Obj
    }

    /// Runtime test for objects.
    pub fn is_object(&self) -> (r: bool)
        ensures
            r == self.spec_is_object(),
    {
        match self {
            JsonValue::Obj(_) => true,
            _ => false,
        }
    }

    /// Member of this object under `key`, if any.
    pub fn get<'a>(&'a self, key: &str) -> (r: Option<&'a JsonValue>)
        ensures
            match r {
                Some(m) => json_get(self@, key@) == Some(m@),
                None => json_get(self@, key@) is None,
            },
    {
        match self {
            JsonValue::Obj(pairs) => {
                let ghost m = obj_view(pairs@);
                let n = pairs.len();
                let mut i: usize = 0;
                proof {
                    lemma_obj_view_index(pairs@);
                    assert(m.skip(0) =~= m);
                }
                while i < n
                    invariant
                        i <= n,
                        n == pairs@.len(),
                        m == obj_view(pairs@),
                        self@ == JsonSpec::Obj(m),
                        m.len() == n,
                        forall|k: int|
                            0 <= k < n ==> #[trigger] m[k] == (pairs@[k].0@, pairs@[k].1@),
                        obj_lookup(m, key@) == obj_lookup(m.skip(i as int), key@),
                    decreases n - i,
                {
                    let hit = crate::text::str_eq(pairs[i].0.as_str(), key);
                    proof {
                        assert(m.skip(i as int)[0] == m[i as int]);
                        assert(m.skip(i as int).drop_first() =~= m.skip(i as int + 1));
                    }
                    if hit {
                        return Some(&pairs[i].1);
                    }
                    i = i + 1;
                }
                proof {
                    assert(m.skip(n as int) =~= Seq::<(Seq<char>, JsonSpec)>::empty());
                }
                None
            },
            _ => None,
        }
    }

    /// A deep copy.
    pub fn deep_clone(&self) -> (r: JsonValue)
        ensures
            r@ == self@,
        decreases self,
    {
        match self {
            JsonValue::Null => JsonValue::Null,
            JsonValue::Bool(b) => JsonValue::Bool(*b),
            JsonValue::Num(t) => JsonValue::Num(t.clone()),
            JsonValue::Str(t) => JsonValue::Str(t.clone()),
            JsonValue::Arr(items) => {
                let n = items.len();
                let mut out: Vec<JsonValue> = Vec::new();
                let mut i: usize = 0;
                while i < n
                    invariant
                        i <= n,
                        n == items@.len(),
                        out@.len() == i,
                        *self == JsonValue::Arr(*items),
                        forall|k: int| 0 <= k < i ==> (#[trigger] out@[k])@ == items@[k]@,
                    decreases n - i,
                {
                    proof {
                        assert(*items == (*self)->Arr_0);
                        assert(decreases_to!(*self => (*self)->Arr_0));
                        assert(decreases_to!(*items => items[i as int]));
                        assert(decreases_to!(*self => items[i as int]));
                    }
                    out.push(items[i].deep_clone());
                    i = i + 1;
                }
                proof {
                    lemma_arr_view_index(out@);
                    lemma_arr_view_index(items@);
                    assert forall|k: int| 0 <= k < n implies arr_view(out@)[k] == arr_view(
                        items@,
                    )[k] by {
                        assert(out@[k]@ == items@[k]@);
                    }
                    assert(arr_view(out@) =~= arr_view(items@));
                    assert(JsonValue::Arr(out)@ =~= self@);
                }
                JsonValue::Arr(out)
            },
            JsonValue::Obj(pairs) => {
                let n = pairs.len();
                let mut out: Vec<(String, JsonValue)> = Vec::new();
                let mut i: usize = 0;
                while i < n
                    invariant
                        i <= n,
                        n == pairs@.len(),
                        out@.len() == i,
                        *self == JsonValue::Obj(*pairs),
                        forall|k: int|
                            0 <= k < i ==> (#[trigger] out@[k]).0@ == pairs@[k].0@ && out@[k].1@
                                == pairs@[k].1@,
                    decreases n - i,
                {
                    proof {
                        assert(*pairs == (*self)->Obj_0);
                        assert(decreases_to!(*self => (*self)->Obj_0));
                        assert(decreases_to!(*pairs => pairs[i as int]));
                        assert(decreases_to!(pairs[i as int] => pairs[i as int].1));
                        assert(decreases_to!(*self => pairs[i as int].1));
                    }
                    out.push((pairs[i].0.clone(), pairs[i].1.deep_clone()));
                    i = i + 1;
                }
                proof {
                    lemma_obj_view_index(out@);
                    lemma_obj_view_index(pairs@);
                    assert forall|k: int| 0 <= k < n implies obj_view(out@)[k] == obj_view(
                        pairs@,
                    )[k] by {
                        assert(out@[k].0@ == pairs@[k].0@ && out@[k].1@ == pairs@[k].1@);
                    }
                    assert(obj_view(out@) =~= obj_view(pairs@));
                    assert(JsonValue::Obj(out)@ =~= self@);
                }
                JsonValue::Obj(out)
            },
        }
    }
}

/// Hexadecimal digit for `n` below 16.
pub open spec fn hex_digit(n: u32) -> char {
    if n == 0 {
        '0'
    } else if n == 1 {
        '1'
    } else if n == 2 {
        '2'
    } else if n == 3 {
        '3'
    } else if n == 4 {
        '4'
    } else if n == 5 {
        '5'
    } else if n == 6 {
        '6'
    } else if n == 7 {
        '7'
    } else if n == 8 {
        '8'
    } else if n == 9 {
        '9'
    } else if n == 10 {
        'a'
    } else if n == 11 {
        'b'
    } else if n == 12 {
        'c'
    } else if n == 13 {
        'd'
    } else if n == 14 {
        'e'
    } else {
        'f'
    }
}

/// Escape of one character inside a JSON string literal.
pub open spec fn esc_char(c: char) -> Seq<char> {
    if c == '"' {
        seq!['\\', '"']
    } else if c == '\\' {
        seq!['\\', '\\']
    } else if c == '\n' {
        seq!['\\', 'n']
    } else if c == '\r' {
        seq!['\\', 'r']
    } else if c == '\t' {
        seq!['\\', 't']
    } else if (c as u32) < 0x20 {
        seq!['\\', 'u', '0', '0', hex_digit((c as u32) / 16), hex_digit((c as u32) % 16)]
    } else {
        seq![c]
    }
}

/// Escape of a whole string body.
pub open spec fn esc_str(s: Seq<char>) -> Seq<char>
    decreases s.len(),
{
    if s.len() == 0 {
        Seq::empty()
    } else {
        esc_char(s[0]) + esc_str(s.drop_first())
    }
}

/// Compact text of a JSON value: no white space, members in stored order.
pub open spec fn json_text(v: JsonSpec) -> Seq<char>
    decreases v,
{
    match v {
        JsonSpec::Null => seq!['n', 'u', 'l', 'l'],
        JsonSpec::Bool(b) => if b {
            seq!['t', 'r', 'u', 'e']
        } else {
            seq!['f', 'a', 'l', 's', 'e']
        },
        JsonSpec::Num(t) => t,
        JsonSpec::Str(t) => seq!['"'] + esc_str(t) + seq!['"'],
        JsonSpec::Arr(items) => seq!['['] + json_items_text(items) + seq![']'],
        JsonSpec::Obj(pairs) => seq!['{'] + json_members_text(pairs) + seq!['}'],
    }
}

/// Comma-separated texts of array elements.
pub open spec fn json_items_text(items: Seq<JsonSpec>) -> Seq<char>
    decreases items,
{
    if items.len() == 0 {
        Seq::empty()
    } else if items.len() == 1 {
        json_text(items[0])
    } else {
        json_text(items[0]) + seq![','] + json_items_text(items.drop_first())
    }
}

/// Comma-separated `"key":value` texts of object members.
pub open spec fn json_members_text(pairs: Seq<(Seq<char>, JsonSpec)>) -> Seq<char>
    decreases pairs,
{
    if pairs.len() == 0 {
        Seq::empty()
    } else {
        let head = seq!['"'] + esc_str(pairs[0].0) + seq!['"', ':'] + json_text(pairs[0].1);
        if pairs.len() == 1 {
            head
        } else {
            head + seq![','] + json_members_text(pairs.drop_first())
        }
    }
}

/// Push the escape of `c` onto `out`.
fn push_esc_char(out: &mut Vec<char>, c: char)
    ensures
        final(out)@ == old(out)@ + esc_char(c),
{
    let u = c as u32;
    if c == '"' {
        out.push('\\');
        out.push('"');
    } else if c == '\\' {
        out.push('\\');
        out.push('\\');
    } else if c == '\n' {
        out.push('\\');
        out.push('n');
    } else if c == '\r' {
        out.push('\\');
        out.push('r');
    } else if c == '\t' {
        out.push('\\');
        out.push('t');
    } else if u < 0x20 {
        out.push('\\');
        out.push('u');
        out.push('0');
        out.push('0');
        out.push(exec_hex_digit(u / 16));
        out.push(exec_hex_digit(u % 16));
    } else {
        out.push(c);
    }
    proof {
        assert(out@ =~= old(out)@ + esc_char(c));
    }
}

/// Runtime form of [`hex_digit`].
fn exec_hex_digit(n: u32) -> (r: char)
    ensures
        r == hex_digit(n),
{
    if n == 0 {
        '0'
    } else if n == 1 {
        '1'
    } else if n == 2 {
        '2'
    } else if n == 3 {
        '3'
    } else if n == 4 {
        '4'
    } else if n == 5 {
        '5'
    } else if n == 6 {
        '6'
    } else if n == 7 {
        '7'
    } else if n == 8 {
        '8'
    } else if n == 9 {
        '9'
    } else if n == 10 {
        'a'
    } else if n == 11 {
        'b'
    } else if n == 12 {
        'c'
    } else if n == 13 {
        'd'
    } else if n == 14 {
        'e'
    } else {
        'f'
    }
}

/// Push the characters of `s` onto `out`, escaped.
fn push_esc_str(out: &mut Vec<char>, s: &str)
    ensures
        final(out)@ == old(out)@ + esc_str(s@),
{
    let n = s.unicode_len();
    let mut i: usize = 0;
    while i < n
        invariant
            i <= n,
            n == s@.len(),
            out@ == old(out)@ + esc_str(s@.subrange(0, i as int)),
        decreases n - i,
    {
        let c = s.get_char(i);
        push_esc_char(out, c);
        proof {
            lemma_esc_str_push(s@.subrange(0, i as int), c);
            assert(s@.subrange(0, i as int).push(c) =~= s@.subrange(0, i as int + 1));
        }
        i = i + 1;
    }
    proof {
        assert(s@.subrange(0, n as int) =~= s@);
    }
}

proof fn lemma_esc_str_push(s: Seq<char>, c: char)
    ensures
        esc_str(s.push(c)) == esc_str(s) + esc_char(c),
    decreases s.len(),
{
    let t = s.push(c);
    assert(t.len() == s.len() + 1);
    if s.len() == 0 {
        assert(t[0] == c);
        assert(t.drop_first() =~= Seq::<char>::empty());
        assert(esc_str(t.drop_first()) == Seq::<char>::empty());
        assert(esc_str(t) == esc_char(c) + Seq::<char>::empty());
        assert(esc_str(s) == Seq::<char>::empty());
        assert(esc_char(c) + Seq::<char>::empty() =~= Seq::<char>::empty() + esc_char(c));
    } else {
        assert(t[0] == s[0]);
        assert(t.drop_first() =~= s.drop_first().push(c));
        lemma_esc_str_push(s.drop_first(), c);
        assert(esc_str(t) == esc_char(s[0]) + (esc_str(s.drop_first()) + esc_char(c)));
        assert(esc_char(s[0]) + (esc_str(s.drop_first()) + esc_char(c)) =~= (esc_char(s[0])
            + esc_str(s.drop_first())) + esc_char(c));
    }
}

/// Push the compact text of `v` onto `out`.
fn push_json_text(out: &mut Vec<char>, v: &JsonValue)
    ensures
        final(out)@ == old(out)@ + json_text(v@),
    decreases v,
{
    match v {
        JsonValue::Null => {
            out.push('n');
            out.push('u');
            out.push('l');
            out.push('l');
            proof {
                assert(out@ =~= old(out)@ + json_text(v@));
            }
        },
        JsonValue::Bool(b) => {
            if *b {
                out.push('t');
                out.push('r');
                out.push('u');
                out.push('e');
            } else {
                out.push('f');
                out.push('a');
                out.push('l');
                out.push('s');
                out.push('e');
            }
            proof {
                assert(out@ =~= old(out)@ + json_text(v@));
            }
        },
        JsonValue::Num(t) => {
            let cs = crate::text::str_chars(t.as_str());
            let n = cs.len();
            let mut i: usize = 0;
            while i < n
                invariant
                    i <= n,
                    n == cs@.len(),
                    cs@ == t@,
                    out@ == old(out)@ + t@.subrange(0, i as int),
                decreases n - i,
            {
                out.push(cs[i]);
                proof {
                    assert(out@ =~= old(out)@ + t@.subrange(0, i as int + 1));
                }
                i = i + 1;
            }
            proof {
                assert(t@.subrange(0, n as int) =~= t@);
                assert(out@ =~= old(out)@ + json_text(v@));
            }
        },
        JsonValue::Str(t) => {
            out.push('"');
            push_esc_str(out, t.as_str());
            out.push('"');
            proof {
                assert(out@ =~= old(out)@ + json_text(v@));
            }
        },
        JsonValue::Arr(items) => {
            let ghost model = (v@) -> Arr_0;
            proof {
                lemma_arr_view_index(items@);
            }
            out.push('[');
            let n = items.len();
            let mut i: usize = 0;
            while i < n
                invariant
                    i <= n,
                    n == items@.len(),
                    v@ is Arr,
                    *v == JsonValue::Arr(*items),
                    model == (v@)->Arr_0,
                    model.len() == n,
                    forall|k: int| 0 <= k < n ==> #[trigger] model[k] == items@[k]@,
                    out@ == old(out)@ + seq!['['] + json_items_prefix(model, i as int),
                decreases n - i,
            {
                if i > 0 {
                    out.push(',');
                }
                proof {
                    assert(decreases_to!(*v => *items));
                    assert(decreases_to!(*items => items[i as int]));
                    assert(decreases_to!(*v => items[i as int]));
                }
                push_json_text(out, &items[i]);
                proof {
                    lemma_json_items_prefix_step(model, i as int);
                    assert(out@ =~= old(out)@ + seq!['['] + json_items_prefix(model, i as int + 1));
                }
                i = i + 1;
            }
            out.push(']');
            proof {
                lemma_json_items_prefix_full(model);
                assert(out@ =~= old(out)@ + json_text(v@));
            }
        },
        JsonValue::Obj(pairs) => {
            let ghost model = (v@) -> Obj_0;
            proof {
                lemma_obj_view_index(pairs@);
            }
            out.push('{');
            let n = pairs.len();
            let mut i: usize = 0;
            while i < n
                invariant
                    i <= n,
                    n == pairs@.len(),
                    v@ is Obj,
                    *v == JsonValue::Obj(*pairs),
                    model == (v@)->Obj_0,
                    model.len() == n,
                    forall|k: int| 0 <= k < n ==> #[trigger] model[k] == (pairs@[k].0@, pairs@[k].1@),
                    out@ == old(out)@ + seq!['{'] + json_members_prefix(model, i as int),
                decreases n - i,
            {
                if i > 0 {
                    out.push(',');
                }
                out.push('"');
                push_esc_str(out, pairs[i].0.as_str());
                out.push('"');
                out.push(':');
                proof {
                    assert(decreases_to!(*v => *pairs));
                    assert(decreases_to!(*pairs => pairs[i as int]));
                    assert(decreases_to!(pairs[i as int] => pairs[i as int].1));
                    assert(decreases_to!(*v => pairs[i as int].1));
                }
                push_json_text(out, &pairs[i].1);
                proof {
                    lemma_json_members_prefix_step(model, i as int);
                    assert(out@ =~= old(out)@ + seq!['{'] + json_members_prefix(model, i as int + 1));
                }
                i = i + 1;
            }
            out.push('}');
            proof {
                lemma_json_members_prefix_full(model);
                assert(out@ =~= old(out)@ + json_text(v@));
            }
        },
    }
}

/// Text of the first `i` array elements, comma separated.
pub open spec fn json_items_prefix(items: Seq<JsonSpec>, i: int) -> Seq<char>
    decreases i,
{
    if i <= 0 {
        Seq::empty()
    } else if i == 1 {
        json_text(items[0])
    } else {
        json_items_prefix(items, i - 1) + seq![','] + json_text(items[i - 1])
    }
}

/// Text of the first `i` object members, comma separated.
pub open spec fn json_members_prefix(pairs: Seq<(Seq<char>, JsonSpec)>, i: int) -> Seq<char>
    decreases i,
{
    if i <= 0 {
        Seq::empty()
    } else {
        let prev = json_members_prefix(pairs, i - 1);
        let item = seq!['"'] + esc_str(pairs[i - 1].0) + seq!['"', ':'] + json_text(pairs[i - 1].1);
        if i == 1 {
            item
        } else {
            prev + seq![','] + item
        }
    }
}

proof fn lemma_json_items_prefix_step(items: Seq<JsonSpec>, i: int)
    requires
        0 <= i < items.len(),
    ensures
        json_items_prefix(items, i + 1) == if i == 0 {
            json_text(items[0])
        } else {
            json_items_prefix(items, i) + seq![','] + json_text(items[i])
        },
{
}

proof fn lemma_json_members_prefix_step(pairs: Seq<(Seq<char>, JsonSpec)>, i: int)
    requires
        0 <= i < pairs.len(),
    ensures
        json_members_prefix(pairs, i + 1) == if i == 0 {
            seq!['"'] + esc_str(pairs[0].0) + seq!['"', ':'] + json_text(pairs[0].1)
        } else {
            json_members_prefix(pairs, i) + seq![','] + (seq!['"'] + esc_str(pairs[i].0) + seq![
                '"',
                ':',
            ] + json_text(pairs[i].1))
        },
{
}

proof fn lemma_json_items_prefix_full(items: Seq<JsonSpec>)
    ensures
        json_items_prefix(items, items.len() as int) == json_items_text(items),
    decreases items.len(),
{
    if items.len() > 1 {
        lemma_json_items_prefix_full(items.drop_first());
        lemma_json_items_prefix_shift(items, items.len() as int);
        assert(json_items_prefix(items, items.len() as int) =~= json_items_text(items));
    }
}

proof fn lemma_json_items_prefix_shift(items: Seq<JsonSpec>, i: int)
    requires
        2 <= i <= items.len(),
        items.len() >= 2,
    ensures
        json_items_prefix(items, i) == json_text(items[0]) + seq![','] + json_items_prefix(
            items.drop_first(),
            i - 1,
        ),
    decreases i,
{
    if i == 2 {
        assert(items.drop_first()[0] == items[1]);
        assert(json_items_prefix(items, 1) == json_text(items[0]));
        assert(json_items_prefix(items.drop_first(), 1) == json_text(items.drop_first()[0]));
        assert(json_items_prefix(items, 2) =~= json_text(items[0]) + seq![','] + json_items_prefix(
            items.drop_first(),
            1,
        ));
    } else {
        lemma_json_items_prefix_shift(items, i - 1);
        assert(items.drop_first()[i - 2] == items[i - 1]);
        assert(json_items_prefix(items.drop_first(), i - 1) == json_items_prefix(
            items.drop_first(),
            i - 2,
        ) + seq![','] + json_text(items.drop_first()[i - 2]));
        assert(json_items_prefix(items, i) =~= json_text(items[0]) + seq![','] + json_items_prefix(
            items.drop_first(),
            i - 1,
        ));
    }
}

proof fn lemma_json_members_prefix_full(pairs: Seq<(Seq<char>, JsonSpec)>)
    ensures
        json_members_prefix(pairs, pairs.len() as int) == json_members_text(pairs),
    decreases pairs.len(),
{
    if pairs.len() > 1 {
        lemma_json_members_prefix_full(pairs.drop_first());
        lemma_json_members_prefix_shift(pairs, pairs.len() as int);
        assert(json_members_prefix(pairs, pairs.len() as int) =~= json_members_text(pairs));
    }
}

proof fn lemma_json_members_prefix_shift(pairs: Seq<(Seq<char>, JsonSpec)>, i: int)
    requires
        2 <= i <= pairs.len(),
    ensures
        json_members_prefix(pairs, i) == (seq!['"'] + esc_str(pairs[0].0) + seq!['"', ':']
            + json_text(pairs[0].1)) + seq![','] + json_members_prefix(pairs.drop_first(), i - 1),
    decreases i,
{
    if i == 2 {
        assert(pairs.drop_first()[0] == pairs[1]);
        assert(json_members_prefix(pairs, 1) == seq!['"'] + esc_str(pairs[0].0) + seq!['"', ':']
            + json_text(pairs[0].1));
        assert(json_members_prefix(pairs.drop_first(), 1) == seq!['"'] + esc_str(
            pairs.drop_first()[0].0,
        ) + seq!['"', ':'] + json_text(pairs.drop_first()[0].1));
        assert(json_members_prefix(pairs, 2) =~= (seq!['"'] + esc_str(pairs[0].0) + seq!['"', ':']
            + json_text(pairs[0].1)) + seq![','] + json_members_prefix(pairs.drop_first(), 1));
    } else {
        lemma_json_members_prefix_shift(pairs, i - 1);
        assert(pairs.drop_first()[i - 2] == pairs[i - 1]);
        assert(json_members_prefix(pairs.drop_first(), i - 1) == json_members_prefix(
            pairs.drop_first(),
            i - 2,
        ) + seq![','] + (seq!['"'] + esc_str(pairs.drop_first()[i - 2].0) + seq!['"', ':']
            + json_text(pairs.drop_first()[i - 2].1)));
        assert(json_members_prefix(pairs, i) =~= (seq!['"'] + esc_str(pairs[0].0) + seq!['"', ':']
            + json_text(pairs[0].1)) + seq![','] + json_members_prefix(pairs.drop_first(), i - 1));
    }
}

/// Compact serialized text of `v`.
pub fn to_json_text(v: &JsonValue) -> (r: String)
    ensures
        r@ == json_text(v@),
{
    let mut out: Vec<char> = Vec::new();
    push_json_text(&mut out, v);
    chars_to_string(&out)
}

/// JSON inter-token white space.
pub open spec fn is_json_ws(c: char) -> bool {
    c == ' ' || c == '\t' || c == '\n' || c == '\r'
}

/// First position at or after `i` holding no white space.
pub open spec fn skip_ws(s: Seq<char>, i: nat) -> nat
    decreases s.len() - i,
{
    if i >= s.len() {
        i
    } else if is_json_ws(s[i as int]) {
        skip_ws(s, i + 1)
    } else {
        i
    }
}

pub proof fn lemma_skip_ws_bounds(s: Seq<char>, i: nat)
    ensures
        i <= skip_ws(s, i),
        i <= s.len() ==> skip_ws(s, i) <= s.len(),
    decreases s.len() - i,
{
    if i < s.len() && is_json_ws(s[i as int]) {
        lemma_skip_ws_bounds(s, i + 1);
    }
}

/// Decimal digit.
pub open spec fn digit_char(c: char) -> bool {
    0x30 <= (c as u32) && (c as u32) <= 0x39
}

/// Characters a number lexeme may contain.
pub open spec fn num_char(c: char) -> bool {
    digit_char(c) || c == '-' || c == '+' || c == '.' || c == 'e' || c == 'E'
}

/// End of the run of number characters starting at `i`.
pub open spec fn scan_num(s: Seq<char>, i: nat) -> nat
    decreases s.len() - i,
{
    if i >= s.len() {
        i
    } else if num_char(s[i as int]) {
        scan_num(s, i + 1)
    } else {
        i
    }
}

pub proof fn lemma_scan_num_bounds(s: Seq<char>, i: nat)
    ensures
        i <= scan_num(s, i),
        i <= s.len() ==> scan_num(s, i) <= s.len(),
    decreases s.len() - i,
{
    if i < s.len() && num_char(s[i as int]) {
        lemma_scan_num_bounds(s, i + 1);
    }
}

/// End of the run of decimal digits starting at `i`.
pub open spec fn digits_end(t: Seq<char>, i: nat) -> nat
    decreases t.len() - i,
{
    if i >= t.len() {
        i
    } else if digit_char(t[i as int]) {
        digits_end(t, i + 1)
    } else {
        i
    }
}

pub proof fn lemma_digits_end_bounds(t: Seq<char>, i: nat)
    ensures
        i <= digits_end(t, i),
        i <= t.len() ==> digits_end(t, i) <= t.len(),
        forall|k: int| i <= k < digits_end(t, i) ==> digit_char(#[trigger] t[k]),
    decreases t.len() - i,
{
    if i < t.len() && digit_char(t[i as int]) {
        lemma_digits_end_bounds(t, i + 1);
    }
}

/// The exponent part: a marker, an optional sign, then digits to the end.
pub open spec fn exp_ok(t: Seq<char>, p: nat) -> bool {
    &&& p < t.len()
    &&& (t[p as int] == 'e' || t[p as int] == 'E')
    &&& ({
        let q: nat = if p + 1 < t.len() && (t[p as int + 1] == '+' || t[p as int + 1] == '-') {
            p + 2
        } else {
            p + 1
        };
        q < t.len() && digits_end(t, q) == t.len()
    })
}

/// What may follow the fraction: nothing, or an exponent.
pub open spec fn after_frac_ok(t: Seq<char>, p: nat) -> bool {
    p == t.len() || exp_ok(t, p)
}

/// What may follow the integer part: nothing, a fraction, or an exponent.
pub open spec fn after_int_ok(t: Seq<char>, p: nat) -> bool {
    if p == t.len() {
        true
    } else if t[p as int] == '.' {
        let fe = digits_end(t, p + 1);
        fe > p + 1 && after_frac_ok(t, fe)
    } else {
        exp_ok(t, p)
    }
}

/// A JSON number: an optional minus, an integer part without a leading
/// zero, an optional fraction, an optional exponent.
pub open spec fn num_lexeme_strict(t: Seq<char>) -> bool {
    let i0: nat = if t.len() > 0 && t[0] == '-' {
        1
    } else {
        0
    };
    let d_end = digits_end(t, i0);
    &&& t.len() > 0
    &&& d_end > i0
    &&& (t[i0 as int] == '0' ==> d_end == i0 + 1)
    &&& after_int_ok(t, d_end)
}

/// Every character of a strict number lexeme is a number character.
pub proof fn lemma_strict_chars(t: Seq<char>)
    requires
        num_lexeme_strict(t),
    ensures
        forall|k: int| 0 <= k < t.len() ==> num_char(#[trigger] t[k]),
        t[0] == '-' || digit_char(t[0]),
{
    let i0: nat = if t.len() > 0 && t[0] == '-' {
        1
    } else {
        0
    };
    let d_end = digits_end(t, i0);
    lemma_digits_end_bounds(t, i0);
    assert forall|k: int| 0 <= k < t.len() implies num_char(#[trigger] t[k]) by {
        if k < i0 {
            assert(t[k] == '-');
        } else if k < d_end {
        } else {
            if t[d_end as int] == '.' {
                let fe = digits_end(t, d_end + 1);
                lemma_digits_end_bounds(t, d_end + 1);
                if k == d_end {
                } else if k < fe {
                } else {
                    lemma_exp_chars(t, fe, k);
                }
            } else {
                lemma_exp_chars(t, d_end, k);
            }
        }
    }
}

proof fn lemma_exp_chars(t: Seq<char>, p: nat, k: int)
    requires
        exp_ok(t, p),
        p <= k < t.len(),
    ensures
        num_char(t[k]),
{
    let q: nat = if p + 1 < t.len() && (t[p as int + 1] == '+' || t[p as int + 1] == '-') {
        p + 2
    } else {
        p + 1
    };
    lemma_digits_end_bounds(t, q);
    if k == p {
    } else if k < q {
    } else {
    }
}

/// Value of a hexadecimal digit, if `c` is one.
pub open spec fn hex_val(c: char) -> Option<u32> {
    let u = c as u32;
    if 0x30 <= u && u <= 0x39 {
        Some((u - 0x30) as u32)
    } else if 0x61 <= u && u <= 0x66 {
        Some((u - 0x57) as u32)
    } else if 0x41 <= u && u <= 0x46 {
        Some((u - 0x37) as u32)
    } else {
        None
    }
}

/// The character a short escape stands for.
pub open spec fn esc_map(e: char) -> Option<char> {
    if e == '"' {
        Some('"')
    } else if e == '\\' {
        Some('\\')
    } else if e == '/' {
        Some('/')
    } else if e == 'n' {
        Some('\n')
    } else if e == 'r' {
        Some('\r')
    } else if e == 't' {
        Some('\t')
    } else if e == 'b' {
        Some('\u{8}')
    } else if e == 'f' {
        Some('\u{c}')
    } else {
        None
    }
}

/// A code unit is a Unicode scalar value.
pub open spec fn valid_scalar(u: u32) -> bool {
    u < 0xD800 || (0xE000 <= u && u <= 0x10FFFF)
}

proof fn lemma_char_inj(c1: char, c2: char)
    requires
        c1 as u32 == c2 as u32,
    ensures
        c1 == c2,
{
}

/// The character with code point `u`.
pub open spec fn char_of(u: u32) -> char {
    choose|c: char| (#[trigger] (c as u32)) == u
}

/// Body of a string literal starting at `i` (after the opening quote), up to
/// and including the closing quote. Yields the unescaped text and the
/// position after the closing quote.
pub open spec fn parse_str_body(s: Seq<char>, i: nat) -> Option<(Seq<char>, nat)>
    decreases s.len() - i,
{
    if i >= s.len() {
        None
    } else {
        let c = s[i as int];
        if c == '"' {
            Some((Seq::empty(), (i + 1) as nat))
        } else if c == '\\' {
            if i + 1 >= s.len() {
                None
            } else {
                let e = s[i as int + 1];
                if e == 'u' {
                    if i + 6 > s.len() {
                        None
                    } else {
                        let h0 = hex_val(s[i as int + 2]);
                        let h1 = hex_val(s[i as int + 3]);
                        let h2 = hex_val(s[i as int + 4]);
                        let h3 = hex_val(s[i as int + 5]);
                        if h0 is Some && h1 is Some && h2 is Some && h3 is Some {
                            let u = (h0->0 * 0x1000 + h1->0 * 0x100 + h2->0 * 0x10 + h3->0) as u32;
                            if valid_scalar(u) {
                                match parse_str_body(s, i + 6) {
                                    Some(p) => Some((seq![char_of(u)] + p.0, p.1)),
                                    None => None,
                                }
                            } else {
                                None
                            }
                        } else {
                            None
                        }
                    }
                } else {
                    match esc_map(e) {
                        Some(d) => match parse_str_body(s, i + 2) {
                            Some(p) => Some((seq![d] + p.0, p.1)),
                            None => None,
                        },
                        None => None,
                    }
                }
            }
        } else if (c as u32) < 0x20 {
            None
        } else {
            match parse_str_body(s, i + 1) {
                Some(p) => Some((seq![c] + p.0, p.1)),
                None => None,
            }
        }
    }
}

pub proof fn lemma_parse_str_body_bounds(s: Seq<char>, i: nat)
    ensures
        parse_str_body(s, i) matches Some(p) ==> i < p.1 <= s.len(),
    decreases s.len() - i,
{
    if i < s.len() {
        let c = s[i as int];
        if c == '"' {
        } else if c == '\\' {
            if i + 1 < s.len() {
                if s[i as int + 1] == 'u' {
                    if i + 6 <= s.len() {
                        lemma_parse_str_body_bounds(s, i + 6);
                    }
                } else {
                    lemma_parse_str_body_bounds(s, i + 2);
                }
            }
        } else {
            lemma_parse_str_body_bounds(s, i + 1);
        }
    }
}

/// A JSON value starting at `i`: its model and the position after it.
pub open spec fn spec_parse_value(s: Seq<char>, i: nat) -> Option<(JsonSpec, nat)>
    decreases s.len() - i, 0int,
{
    if i >= s.len() {
        None
    } else {
        let c = s[i as int];
        if c == '"' {
            match parse_str_body(s, i + 1) {
                Some(p) => Some((JsonSpec::Str(p.0), p.1)),
                None => None,
            }
        } else if c == '[' {
            let j = skip_ws(s, i + 1);
            proof {
                lemma_skip_ws_bounds(s, i + 1);
            }
            if j < s.len() && s[j as int] == ']' {
                Some((JsonSpec::Arr(Seq::empty()), (j + 1) as nat))
            } else if j >= s.len() {
                None
            } else {
                match spec_parse_elems(s, j) {
                    Some(p) => Some((JsonSpec::Arr(p.0), p.1)),
                    None => None,
                }
            }
        } else if c == '{' {
            let j = skip_ws(s, i + 1);
            proof {
                lemma_skip_ws_bounds(s, i + 1);
            }
            if j < s.len() && s[j as int] == '}' {
                Some((JsonSpec::Obj(Seq::empty()), (j + 1) as nat))
            } else if j >= s.len() {
                None
            } else {
                match spec_parse_members(s, j) {
                    Some(p) => Some((JsonSpec::Obj(p.0), p.1)),
                    None => None,
                }
            }
        } else if c == 't' {
            if i + 4 <= s.len() && s[i as int + 1] == 'r' && s[i as int + 2] == 'u' && s[i as int
                + 3] == 'e' {
                Some((JsonSpec::Bool(true), (i + 4) as nat))
            } else {
                None
            }
        } else if c == 'f' {
            if i + 5 <= s.len() && s[i as int + 1] == 'a' && s[i as int + 2] == 'l' && s[i as int
                + 3] == 's' && s[i as int + 4] == 'e' {
                Some((JsonSpec::Bool(false), (i + 5) as nat))
            } else {
                None
            }
        } else if c == 'n' {
            if i + 4 <= s.len() && s[i as int + 1] == 'u' && s[i as int + 2] == 'l' && s[i as int
                + 3] == 'l' {
                Some((JsonSpec::Null, (i + 4) as nat))
            } else {
                None
            }
        } else if c == '-' || digit_char(c) {
            let lex = s.subrange(i as int, scan_num(s, i) as int);
            if num_lexeme_strict(lex) {
                Some((JsonSpec::Num(lex), scan_num(s, i)))
            } else {
                None
            }
        } else {
            None
        }
    }
}

/// Array elements from the first element at `j` up to and past the closing
/// bracket.
pub open spec fn spec_parse_elems(s: Seq<char>, j: nat) -> Option<(Seq<JsonSpec>, nat)>
    decreases s.len() - j, 1int,
{
    match spec_parse_value(s, j) {
        None => None,
        Some(p) => {
            let v = p.0;
            let k = p.1;
            if k <= j || k > s.len() {
                None
            } else {
                let k2 = skip_ws(s, k);
                proof {
                    lemma_skip_ws_bounds(s, k);
                }
                if k2 < s.len() && s[k2 as int] == ',' {
                    let j2 = skip_ws(s, k2 + 1);
                    proof {
                        lemma_skip_ws_bounds(s, k2 + 1);
                    }
                    match spec_parse_elems(s, j2) {
                        Some(q) => Some((seq![v] + q.0, q.1)),
                        None => None,
                    }
                } else if k2 < s.len() && s[k2 as int] == ']' {
                    Some((seq![v], (k2 + 1) as nat))
                } else {
                    None
                }
            }
        },
    }
}

/// Object members from the first key at `j` up to and past the closing brace.
pub open spec fn spec_parse_members(s: Seq<char>, j: nat) -> Option<
    (Seq<(Seq<char>, JsonSpec)>, nat),
>
    decreases s.len() - j, 1int,
{
    if j >= s.len() || s[j as int] != '"' {
        None
    } else {
        match parse_str_body(s, j + 1) {
            None => None,
            Some(kp) => {
                let key = kp.0;
                let k = kp.1;
                proof {
                    lemma_parse_str_body_bounds(s, j + 1);
                }
                let c1 = skip_ws(s, k);
                proof {
                    lemma_skip_ws_bounds(s, k);
                }
                if c1 >= s.len() || s[c1 as int] != ':' {
                    None
                } else {
                    let vstart = skip_ws(s, c1 + 1);
                    proof {
                        lemma_skip_ws_bounds(s, c1 + 1);
                    }
                    match spec_parse_value(s, vstart) {
                        None => None,
                        Some(p) => {
                            let v = p.0;
                            let k3 = p.1;
                            if k3 <= vstart || k3 > s.len() {
                                None
                            } else {
                                let k4 = skip_ws(s, k3);
                                proof {
                                    lemma_skip_ws_bounds(s, k3);
                                }
                                if k4 < s.len() && s[k4 as int] == ',' {
                                    let j2 = skip_ws(s, k4 + 1);
                                    proof {
                                        lemma_skip_ws_bounds(s, k4 + 1);
                                    }
                                    match spec_parse_members(s, j2) {
                                        Some(q) => Some((seq![(key, v)] + q.0, q.1)),
                                        None => None,
                                    }
                                } else if k4 < s.len() && s[k4 as int] == '}' {
                                    Some((seq![(key, v)], (k4 + 1) as nat))
                                } else {
                                    None
                                }
                            }
                        },
                    }
                }
            },
        }
    }
}

/// A whole document: one value, possibly surrounded by white space.
pub open spec fn spec_parse_json(s: Seq<char>) -> Option<JsonSpec> {
    let i = skip_ws(s, 0);
    match spec_parse_value(s, i) {
        None => None,
        Some(p) => {
            if skip_ws(s, p.1) == s.len() {
                Some(p.0)
            } else {
                None
            }
        },
    }
}


/// Characters of `s` from `a` to `b`.
pub fn copy_range(s: &Vec<char>, a: usize, b: usize) -> (v: Vec<char>)
    requires
        a <= b <= s@.len(),
    ensures
        v@ == s@.subrange(a as int, b as int),
{
    let mut v: Vec<char> = Vec::new();
    let mut i: usize = a;
    while i < b
        invariant
            a <= i <= b <= s@.len(),
            v@ =~= s@.subrange(a as int, i as int),
        decreases b - i,
    {
        v.push(s[i]);
        proof {
            assert(v@ =~= s@.subrange(a as int, i as int + 1));
        }
        i = i + 1;
    }
    proof {
        assert(v@ =~= s@.subrange(a as int, b as int));
    }
    v
}

/// Runtime form of [`skip_ws`].
fn skip_ws_x(s: &Vec<char>, i: usize) -> (j: usize)
    requires
        i <= s@.len(),
    ensures
        j == skip_ws(s@, i as nat),
        i <= j <= s@.len(),
{
    let n = s.len();
    let mut j: usize = i;
    while j < n && (s[j] == ' ' || s[j] == '\t' || s[j] == '\n' || s[j] == '\r')
        invariant
            i <= j <= n,
            n == s@.len(),
            skip_ws(s@, i as nat) == skip_ws(s@, j as nat),
        decreases n - j,
    {
        j = j + 1;
    }
    j
}

/// Runtime form of [`scan_num`].
fn scan_num_x(s: &Vec<char>, i: usize) -> (j: usize)
    requires
        i <= s@.len(),
    ensures
        j == scan_num(s@, i as nat),
        i <= j <= s@.len(),
{
    let n = s.len();
    let mut j: usize = i;
    loop
        invariant
            i <= j <= n,
            n == s@.len(),
            scan_num(s@, i as nat) == scan_num(s@, j as nat),
        decreases n - j,
    {
        if j >= n {
            return j;
        }
        let u = s[j] as u32;
        if (0x30 <= u && u <= 0x39) || s[j] == '-' || s[j] == '+' || s[j] == '.' || s[j] == 'e'
            || s[j] == 'E' {
            j = j + 1;
        } else {
            return j;
        }
    }
}

/// Runtime form of [`digits_end`].
fn digits_end_x(t: &Vec<char>, i: usize) -> (j: usize)
    requires
        i <= t@.len(),
    ensures
        j == digits_end(t@, i as nat),
        i <= j <= t@.len(),
{
    let n = t.len();
    let mut j: usize = i;
    loop
        invariant
            i <= j <= n,
            n == t@.len(),
            digits_end(t@, i as nat) == digits_end(t@, j as nat),
        decreases n - j,
    {
        if j >= n {
            return j;
        }
        let u = t[j] as u32;
        if 0x30 <= u && u <= 0x39 {
            j = j + 1;
        } else {
            return j;
        }
    }
}

/// Runtime form of [`exp_ok`].
fn exp_ok_x(t: &Vec<char>, p: usize) -> (r: bool)
    requires
        p <= t@.len(),
    ensures
        r == exp_ok(t@, p as nat),
{
    let n = t.len();
    if p >= n {
        return false;
    }
    if !(t[p] == 'e' || t[p] == 'E') {
        return false;
    }
    let q: usize = if p + 1 < n && (t[p + 1] == '+' || t[p + 1] == '-') {
        p + 2
    } else {
        p + 1
    };
    if q >= n {
        return false;
    }
    digits_end_x(t, q) == n
}

/// Runtime form of [`num_lexeme_strict`].
fn num_strict_x(t: &Vec<char>) -> (r: bool)
    ensures
        r == num_lexeme_strict(t@),
{
    let n = t.len();
    if n == 0 {
        return false;
    }
    let i0: usize = if t[0] == '-' {
        1
    } else {
        0
    };
    let d_end = digits_end_x(t, i0);
    if d_end <= i0 {
        return false;
    }
    if t[i0] == '0' && d_end != i0 + 1 {
        return false;
    }
    if d_end == n {
        return true;
    }
    if t[d_end] == '.' {
        let fe = digits_end_x(t, d_end + 1);
        if fe <= d_end + 1 {
            return false;
        }
        if fe == n {
            return true;
        }
        return exp_ok_x(t, fe);
    }
    exp_ok_x(t, d_end)
}

/// Runtime form of [`hex_val`].
fn hex_val_x(c: char) -> (r: Option<u32>)
    ensures
        r == hex_val(c),
{
    let u = c as u32;
    if 0x30 <= u && u <= 0x39 {
        Some(u - 0x30)
    } else if 0x61 <= u && u <= 0x66 {
        Some(u - 0x57)
    } else if 0x41 <= u && u <= 0x46 {
        Some(u - 0x37)
    } else {
        None
    }
}

/// Runtime form of [`parse_str_body`]: unescapes a string literal body.
fn parse_str_body_x(s: &Vec<char>, start: usize) -> (r: Option<(Vec<char>, usize)>)
    requires
        start <= s@.len(),
    ensures
        match r {
            Some(p) => parse_str_body(s@, start as nat) == Some((p.0@, p.1 as nat)) && start < p.1
                <= s@.len(),
            None => parse_str_body(s@, start as nat) is None,
        },
{
    let n = s.len();
    let mut acc: Vec<char> = Vec::new();
    let mut cur: usize = start;
    loop
        invariant
            start <= cur <= n,
            n == s@.len(),
            ({
                let r0 = parse_str_body(s@, start as nat);
                match parse_str_body(s@, cur as nat) {
                    Some(p) => r0 == Some((acc@ + p.0, p.1)),
                    None => r0 is None,
                }
            }),
        decreases n - cur,
    {
        proof {
            lemma_parse_str_body_bounds(s@, cur as nat);
        }
        if cur >= n {
            return None;
        }
        let c = s[cur];
        if c == '"' {
            proof {
                assert(parse_str_body(s@, cur as nat) == Some(
                    (Seq::<char>::empty(), (cur + 1) as nat),
                ));
                assert(acc@ + Seq::<char>::empty() =~= acc@);
            }
            return Some((acc, cur + 1));
        } else if c == '\\' {
            if cur + 1 >= n {
                return None;
            }
            let e = s[cur + 1];
            if e == 'u' {
                if n - cur < 6 {
                    return None;
                }
                let h0 = hex_val_x(s[cur + 2]);
                let h1 = hex_val_x(s[cur + 3]);
                let h2 = hex_val_x(s[cur + 4]);
                let h3 = hex_val_x(s[cur + 5]);
                if h0.is_none() || h1.is_none() || h2.is_none() || h3.is_none() {
                    return None;
                }
                let u = h0.unwrap() * 0x1000 + h1.unwrap() * 0x100 + h2.unwrap() * 0x10
                    + h3.unwrap();
                if !(u < 0xD800 || u >= 0xE000) {
                    return None;
                }
                match char::from_u32(u) {
                    Some(ch) => {
                        proof {
                            assert(ch as u32 == u);
                            assert(char_of(u) as u32 == u);
                            lemma_char_inj(ch, char_of(u));
                            let p1 = parse_str_body(s@, cur as nat);
                            match parse_str_body(s@, cur as nat + 6) {
                                Some(q) => {
                                    assert(p1 == Some((seq![char_of(u)] + q.0, q.1)));
                                    assert(acc@.push(ch) + q.0 =~= acc@ + (seq![char_of(u)]
                                        + q.0));
                                },
                                None => {},
                            }
                        }
                        acc.push(ch);
                        cur = cur + 6;
                    },
                    None => {
                        proof {
                            assert(false);
                        }
                        return None;
                    },
                }
            } else {
                let d_opt = if e == '"' {
                    Some('"')
                } else if e == '\\' {
                    Some('\\')
                } else if e == '/' {
                    Some('/')
                } else if e == 'n' {
                    Some('\n')
                } else if e == 'r' {
                    Some('\r')
                } else if e == 't' {
                    Some('\t')
                } else if e == 'b' {
                    Some('\u{8}')
                } else if e == 'f' {
                    Some('\u{c}')
                } else {
                    None
                };
                proof {
                    assert(d_opt == esc_map(e));
                }
                match d_opt {
                    Some(d) => {
                        proof {
                            let p1 = parse_str_body(s@, cur as nat);
                            match parse_str_body(s@, cur as nat + 2) {
                                Some(q) => {
                                    assert(p1 == Some((seq![d] + q.0, q.1)));
                                    assert(acc@.push(d) + q.0 =~= acc@ + (seq![d] + q.0));
                                },
                                None => {},
                            }
                        }
                        acc.push(d);
                        cur = cur + 2;
                    },
                    None => {
                        return None;
                    },
                }
            }
        } else if (c as u32) < 0x20 {
            return None;
        } else {
            proof {
                let p1 = parse_str_body(s@, cur as nat);
                match parse_str_body(s@, cur as nat + 1) {
                    Some(q) => {
                        assert(p1 == Some((seq![c] + q.0, q.1)));
                        assert(acc@.push(c) + q.0 =~= acc@ + (seq![c] + q.0));
                    },
                    None => {},
                }
            }
            acc.push(c);
            cur = cur + 1;
        }
    }
}

pub proof fn lemma_arr_view_push(items: Seq<JsonValue>, x: JsonValue)
    ensures
        arr_view(items.push(x)) == arr_view(items) + seq![json_view(x)],
{
    lemma_arr_view_index(items.push(x));
    lemma_arr_view_index(items);
    assert(arr_view(items.push(x)) =~= arr_view(items) + seq![json_view(x)]);
}

pub proof fn lemma_obj_view_push(pairs: Seq<(String, JsonValue)>, k: String, x: JsonValue)
    ensures
        obj_view(pairs.push((k, x))) == obj_view(pairs) + seq![(k@, json_view(x))],
{
    lemma_obj_view_index(pairs.push((k, x)));
    lemma_obj_view_index(pairs);
    assert(obj_view(pairs.push((k, x))) =~= obj_view(pairs) + seq![(k@, json_view(x))]);
}

/// Runtime form of [`spec_parse_value`].
fn parse_value_x(s: &Vec<char>, i: usize) -> (r: Option<(JsonValue, usize)>)
    requires
        i <= s@.len(),
    ensures
        match r {
            Some(p) => spec_parse_value(s@, i as nat) == Some((p.0@, p.1 as nat)) && i < p.1
                <= s@.len(),
            None => spec_parse_value(s@, i as nat) is None,
        },
    decreases s@.len() - i, 0int,
{
    let n = s.len();
    if i >= n {
        return None;
    }
    let c = s[i];
    if c == '"' {
        match parse_str_body_x(s, i + 1) {
            Some((t, j)) => Some((JsonValue::Str(chars_to_string(&t)), j)),
            None => None,
        }
    } else if c == '[' {
        let j = skip_ws_x(s, i + 1);
        if j < n && s[j] == ']' {
            let empty_items: Vec<JsonValue> = Vec::new();
            proof {
                assert(arr_view(empty_items@) =~= Seq::<JsonSpec>::empty());
            }
            Some((JsonValue::Arr(empty_items), j + 1))
        } else if j >= n {
            None
        } else {
            match parse_elems_x(s, j) {
                Some((items, k)) => Some((JsonValue::Arr(items), k)),
                None => None,
            }
        }
    } else if c == '{' {
        let j = skip_ws_x(s, i + 1);
        if j < n && s[j] == '}' {
            let empty_pairs: Vec<(String, JsonValue)> = Vec::new();
            proof {
                assert(obj_view(empty_pairs@) =~= Seq::<(Seq<char>, JsonSpec)>::empty());
            }
            Some((JsonValue::Obj(empty_pairs), j + 1))
        } else if j >= n {
            None
        } else {
            match parse_members_x(s, j) {
                Some((pairs, k)) => Some((JsonValue::Obj(pairs), k)),
                None => None,
            }
        }
    } else if c == 't' {
        if n - i >= 4 && s[i + 1] == 'r' && s[i + 2] == 'u' && s[i + 3] == 'e' {
            Some((JsonValue::Bool(true), i + 4))
        } else {
            None
        }
    } else if c == 'f' {
        if n - i >= 5 && s[i + 1] == 'a' && s[i + 2] == 'l' && s[i + 3] == 's' && s[i + 4] == 'e' {
            Some((JsonValue::Bool(false), i + 5))
        } else {
            None
        }
    } else if c == 'n' {
        if n - i >= 4 && s[i + 1] == 'u' && s[i + 2] == 'l' && s[i + 3] == 'l' {
            Some((JsonValue::Null, i + 4))
        } else {
            None
        }
    } else {
        let u = c as u32;
        if c == '-' || (0x30 <= u && u <= 0x39) {
            proof {
                lemma_scan_num_bounds(s@, i as nat + 1);
                assert(scan_num(s@, i as nat) == scan_num(s@, i as nat + 1));
            }
            let j = scan_num_x(s, i);
            let lex = copy_range(s, i, j);
            if num_strict_x(&lex) {
                Some((JsonValue::Num(chars_to_string(&lex)), j))
            } else {
                None
            }
        } else {
            None
        }
    }
}

/// Runtime form of [`spec_parse_elems`].
fn parse_elems_x(s: &Vec<char>, j0: usize) -> (r: Option<(Vec<JsonValue>, usize)>)
    requires
        j0 <= s@.len(),
    ensures
        match r {
            Some(p) => spec_parse_elems(s@, j0 as nat) == Some((arr_view(p.0@), p.1 as nat)) && j0
                < p.1 <= s@.len(),
            None => spec_parse_elems(s@, j0 as nat) is None,
        },
    decreases s@.len() - j0, 1int,
{
    let n = s.len();
    let mut out: Vec<JsonValue> = Vec::new();
    let mut j: usize = j0;
    proof {
        assert(arr_view(out@) =~= Seq::<JsonSpec>::empty());
    }
    loop
        invariant
            j0 <= j <= n,
            n == s@.len(),
            ({
                let r0 = spec_parse_elems(s@, j0 as nat);
                match spec_parse_elems(s@, j as nat) {
                    Some(q) => r0 == Some((arr_view(out@) + q.0, q.1)),
                    None => r0 is None,
                }
            }),
        decreases n - j,
    {
        proof {
            assert(decreases_to!(s@.len() - j0 as int, 1int => s@.len() - j as int, 0int));
        }
        match parse_value_x(s, j) {
            None => {
                return None;
            },
            Some((v, k)) => {
                let k2 = skip_ws_x(s, k);
                if k2 < n && s[k2] == ',' {
                    let j2 = skip_ws_x(s, k2 + 1);
                    proof {
                        lemma_arr_view_push(out@, v);
                        let rj = spec_parse_elems(s@, j as nat);
                        match spec_parse_elems(s@, j2 as nat) {
                            Some(q) => {
                                assert(rj == Some((seq![v@] + q.0, q.1)));
                                assert(arr_view(out@.push(v)) + q.0 =~= arr_view(out@) + (seq![v@]
                                    + q.0));
                            },
                            None => {},
                        }
                    }
                    out.push(v);
                    j = j2;
                } else if k2 < n && s[k2] == ']' {
                    proof {
                        lemma_arr_view_push(out@, v);
                        assert(spec_parse_elems(s@, j as nat) == Some(
                            (seq![v@], (k2 + 1) as nat),
                        ));
                        assert(arr_view(out@.push(v)) =~= arr_view(out@) + seq![v@]);
                    }
                    out.push(v);
                    return Some((out, k2 + 1));
                } else {
                    return None;
                }
            },
        }
    }
}

/// Runtime form of [`spec_parse_members`].
fn parse_members_x(s: &Vec<char>, j0: usize) -> (r: Option<(Vec<(String, JsonValue)>, usize)>)
    requires
        j0 <= s@.len(),
    ensures
        match r {
            Some(p) => spec_parse_members(s@, j0 as nat) == Some((obj_view(p.0@), p.1 as nat))
                && j0 < p.1 <= s@.len(),
            None => spec_parse_members(s@, j0 as nat) is None,
        },
    decreases s@.len() - j0, 1int,
{
    let n = s.len();
    let mut out: Vec<(String, JsonValue)> = Vec::new();
    let mut j: usize = j0;
    proof {
        assert(obj_view(out@) =~= Seq::<(Seq<char>, JsonSpec)>::empty());
    }
    loop
        invariant
            j0 <= j <= n,
            n == s@.len(),
            ({
                let r0 = spec_parse_members(s@, j0 as nat);
                match spec_parse_members(s@, j as nat) {
                    Some(q) => r0 == Some((obj_view(out@) + q.0, q.1)),
                    None => r0 is None,
                }
            }),
        decreases n - j,
    {
        if j >= n || s[j] != '"' {
            return None;
        }
        match parse_str_body_x(s, j + 1) {
            None => {
                return None;
            },
            Some((keychars, k)) => {
                let c1 = skip_ws_x(s, k);
                if c1 >= n || s[c1] != ':' {
                    return None;
                }
                let vstart = skip_ws_x(s, c1 + 1);
                proof {
                    assert(decreases_to!(s@.len() - j0 as int, 1int => s@.len() - vstart as int, 0int));
                }
                match parse_value_x(s, vstart) {
                    None => {
                        return None;
                    },
                    Some((v, k3)) => {
                        let k4 = skip_ws_x(s, k3);
                        let key = chars_to_string(&keychars);
                        if k4 < n && s[k4] == ',' {
                            let j2 = skip_ws_x(s, k4 + 1);
                            proof {
                                lemma_obj_view_push(out@, key, v);
                                let rj = spec_parse_members(s@, j as nat);
                                match spec_parse_members(s@, j2 as nat) {
                                    Some(q) => {
                                        assert(rj == Some((seq![(key@, v@)] + q.0, q.1)));
                                        assert(obj_view(out@.push((key, v))) + q.0 =~= obj_view(
                                            out@,
                                        ) + (seq![(key@, v@)] + q.0));
                                    },
                                    None => {},
                                }
                            }
                            out.push((key, v));
                            j = j2;
                        } else if k4 < n && s[k4] == '}' {
                            proof {
                                lemma_obj_view_push(out@, key, v);
                                assert(spec_parse_members(s@, j as nat) == Some(
                                    (seq![(key@, v@)], (k4 + 1) as nat),
                                ));
                                assert(obj_view(out@.push((key, v))) =~= obj_view(out@) + seq![
                                    (key@, v@),
                                ]);
                            }
                            out.push((key, v));
                            return Some((out, k4 + 1));
                        } else {
                            return None;
                        }
                    },
                }
            },
        }
    }
}

/// Parse a whole JSON document.
pub fn parse_json(s: &str) -> (r: Option<JsonValue>)
    ensures
        match r {
            Some(v) => spec_parse_json(s@) == Some(v@),
            None => spec_parse_json(s@) is None,
        },
{
    let cs = crate::text::str_chars(s);
    let n = cs.len();
    let i = skip_ws_x(&cs, 0);
    match parse_value_x(&cs, i) {
        None => None,
        Some((v, j)) => {
            let j2 = skip_ws_x(&cs, j);
            if j2 == n {
                Some(v)
            } else {
                None
            }
        },
    }
}



/// A value whose compact text parses back to it: every number lexeme is
/// scanner-shaped; strings, arrays and objects recurse.
pub open spec fn wf_json(v: JsonSpec) -> bool
    decreases v,
{
    match v {
        JsonSpec::Null => true,
        JsonSpec::Bool(_) => true,
        JsonSpec::Num(t) => num_lexeme_strict(t),
        JsonSpec::Str(_) => true,
        JsonSpec::Arr(items) => wf_items(items),
        JsonSpec::Obj(pairs) => wf_members(pairs),
    }
}

/// All elements well formed.
pub open spec fn wf_items(items: Seq<JsonSpec>) -> bool
    decreases items,
{
    if items.len() == 0 {
        true
    } else {
        wf_json(items[0]) && wf_items(items.drop_first())
    }
}

/// All member values well formed.
pub open spec fn wf_members(pairs: Seq<(Seq<char>, JsonSpec)>) -> bool
    decreases pairs,
{
    if pairs.len() == 0 {
        true
    } else {
        proof {
            assert(decreases_to!(pairs => pairs[0]));
            assert(decreases_to!(pairs[0] => pairs[0].1));
        }
        wf_json(pairs[0].1) && wf_members(pairs.drop_first())
    }
}

proof fn lemma_scan_num_run(s: Seq<char>, i: nat, j: nat)
    requires
        i <= j <= s.len(),
        forall|k: int| i <= k < j ==> num_char(#[trigger] s[k]),
        j < s.len() ==> !num_char(s[j as int]),
    ensures
        scan_num(s, i) == j,
    decreases j - i,
{
    if i < j {
        lemma_scan_num_run(s, i + 1, j);
    }
}

proof fn lemma_skip_ws_none(s: Seq<char>, i: nat)
    requires
        i <= s.len(),
        i < s.len() ==> !is_json_ws(s[i as int]),
    ensures
        skip_ws(s, i) == i,
{
}

/// Escapes in a string body parse back to the original characters: from the
/// escaped text the parser recovers `body` and stops past the closing quote.
#[verifier::rlimit(100)]
#[verifier::spinoff_prover]
proof fn lemma_unescape(s: Seq<char>, i: nat, body: Seq<char>)
    requires
        i + esc_str(body).len() + 1 <= s.len(),
        s.subrange(i as int, (i + esc_str(body).len() + 1) as int) =~= esc_str(body) + seq!['"'],
    ensures
        parse_str_body(s, i) == Some((body, (i + esc_str(body).len() + 1) as nat)),
    decreases body.len(),
{
    if body.len() == 0 {
        assert(esc_str(body) =~= Seq::<char>::empty());
        assert(s.subrange(i as int, (i + esc_str(body).len() + 1) as int)[0] == s[i as int]);
        assert(s[i as int] == '"');
    } else {
        let c = body[0];
        let e = esc_char(c);
        let rest = body.drop_first();
        assert(esc_str(body) == e + esc_str(rest));
        let e_len = e.len();
        assert forall|k: int| 0 <= k < e_len implies s[i + k] == e[k] by {
            assert(s.subrange(i as int, (i + esc_str(body).len() + 1) as int)[k] == s[i + k]);
            assert((esc_str(body) + seq!['"'])[k] == e[k]);
        }
        assert(s.subrange(
            (i + e_len) as int,
            ((i + e_len) + esc_str(rest).len() + 1) as int,
        ) =~= esc_str(rest) + seq!['"']) by {
            assert forall|k: int|
                0 <= k < esc_str(rest).len() + 1 implies s[(i + e_len) as int + k] == (esc_str(
                rest,
            ) + seq!['"'])[k] by {
                assert(s.subrange(i as int, (i + esc_str(body).len() + 1) as int)[e_len + k] == s[(
                i + e_len) as int + k]);
                assert((esc_str(body) + seq!['"'])[e_len + k] == (esc_str(rest) + seq!['"'])[k]);
            }
        }
        lemma_unescape(s, i + e_len, rest);
        if c == '"' {
            assert(s[i as int + 0] == e[0] && s[i as int + 1] == e[1]);
            assert(s[i as int] == '\\' && s[i as int + 1] == '"');
            assert(esc_map('"') == Some('"'));
            assert(parse_str_body(s, i) == Some((seq!['"'] + rest, (i + esc_str(body).len()
                + 1) as nat)));
            assert(seq!['"'] + rest =~= body);
        } else if c == '\\' {
            assert(s[i as int + 0] == e[0] && s[i as int + 1] == e[1]);
            assert(s[i as int] == '\\' && s[i as int + 1] == '\\');
            assert(parse_str_body(s, i) == Some((seq!['\\'] + rest, (i + esc_str(body).len()
                + 1) as nat)));
            assert(seq!['\\'] + rest =~= body);
        } else if c == '\n' {
            assert(s[i as int + 0] == e[0] && s[i as int + 1] == e[1]);
            assert(s[i as int] == '\\' && s[i as int + 1] == 'n');
            assert(parse_str_body(s, i) == Some((seq!['\n'] + rest, (i + esc_str(body).len()
                + 1) as nat)));
            assert(seq!['\n'] + rest =~= body);
        } else if c == '\r' {
            assert(s[i as int + 0] == e[0] && s[i as int + 1] == e[1]);
            assert(s[i as int] == '\\' && s[i as int + 1] == 'r');
            assert(parse_str_body(s, i) == Some((seq!['\r'] + rest, (i + esc_str(body).len()
                + 1) as nat)));
            assert(seq!['\r'] + rest =~= body);
        } else if c == '\t' {
            assert(s[i as int + 0] == e[0] && s[i as int + 1] == e[1]);
            assert(s[i as int] == '\\' && s[i as int + 1] == 't');
            assert(parse_str_body(s, i) == Some((seq!['\t'] + rest, (i + esc_str(body).len()
                + 1) as nat)));
            assert(seq!['\t'] + rest =~= body);
        } else if (c as u32) < 0x20 {
            let u = c as u32;
            assert(e =~= seq!['\\', 'u', '0', '0', hex_digit(u / 16), hex_digit(u % 16)]);
            assert(s[i as int + 0] == e[0] && s[i as int + 1] == e[1] && s[i as int + 2] == e[2] && s[i as int + 3] == e[3]
                && s[i as int + 4] == e[4] && s[i as int + 5] == e[5]);
            assert(s[i as int] == '\\' && s[i as int + 1] == 'u');
            assert(s[i as int + 2] == '0' && s[i as int + 3] == '0');
            assert(s[i as int + 4] == hex_digit(u / 16) && s[i as int + 5] == hex_digit(u % 16));
            lemma_hex_digit_val(u / 16);
            lemma_hex_digit_val(u % 16);
            assert(hex_val('0') == Some(0u32));
            let decoded = ((0 * 0x1000 + 0 * 0x100 + (u / 16) * 0x10 + u % 16)) as u32;
            assert(decoded == u);
            assert(valid_scalar(u));
            assert(char_of(u) as u32 == u) by {
                assert(c as u32 == u);
            }
            lemma_char_inj(char_of(u), c);
            assert(parse_str_body(s, i) == Some((seq![c] + rest, (i + esc_str(body).len()
                + 1) as nat)));
            assert(seq![c] + rest =~= body);
        } else {
            assert(e =~= seq![c]);
            assert(s[i as int + 0] == e[0]);
            assert(s[i as int] == c);
            assert(c != '"' && c != '\\');
            assert(parse_str_body(s, i) == Some((seq![c] + rest, (i + esc_str(body).len()
                + 1) as nat)));
            assert(seq![c] + rest =~= body);
        }
    }
}

proof fn lemma_hex_digit_val(n: u32)
    requires
        n < 16,
    ensures
        hex_val(hex_digit(n)) == Some(n),
{
}


/// A compact text is never empty.
proof fn lemma_json_text_len_pos(v: JsonSpec)
    requires
        wf_json(v),
    ensures
        json_text(v).len() >= 1,
{
}

/// A compact text never starts with white space, a comma or a closing
/// bracket.
proof fn lemma_json_text_head(v: JsonSpec)
    requires
        wf_json(v),
    ensures
        !is_json_ws(json_text(v)[0]),
        json_text(v)[0] != ']',
        json_text(v)[0] != '}',
        json_text(v)[0] != ',',
    decreases v,
{
    match v {
        JsonSpec::Num(t) => {
            assert(json_text(v)[0] == t[0]);
            assert(t[0] == '-' || digit_char(t[0]));
        },
        _ => {},
    }
}

/// Parsing the compact text of a well-formed value from position `i`
/// recovers the value and stops right after its text.
#[verifier::rlimit(100)]
#[verifier::spinoff_prover]
proof fn lemma_parse_of_text(s: Seq<char>, i: nat, v: JsonSpec)
    requires
        wf_json(v),
        i + json_text(v).len() <= s.len(),
        s.subrange(i as int, (i + json_text(v).len()) as int) =~= json_text(v),
        i + json_text(v).len() < s.len() ==> !num_char(s[(i + json_text(v).len()) as int]),
    ensures
        spec_parse_value(s, i) == Some((v, (i + json_text(v).len()) as nat)),
    decreases v, 0int,
{
    let t = json_text(v);
    let e = (i + t.len()) as nat;
    assert forall|k: int| 0 <= k < t.len() implies s[i + k] == t[k] by {
        assert(s.subrange(i as int, e as int)[k] == s[i + k]);
    }
    match v {
        JsonSpec::Null => {
            assert(s[i + 0int] == t[0] && s[i + 1int] == t[1] && s[i + 2int] == t[2] && s[i
                + 3int] == t[3]);
            assert(s[i as int] == 'n' && s[i as int + 1] == 'u' && s[i as int + 2] == 'l' && s[
                i as int + 3] == 'l');
            assert(e == i + 4);
            assert(spec_parse_value(s, i) == Some((JsonSpec::Null, e)));
        },
        JsonSpec::Bool(b) => {
            if b {
                assert(s[i + 0int] == t[0] && s[i + 1int] == t[1] && s[i + 2int] == t[2] && s[i
                    + 3int] == t[3]);
                assert(s[i as int] == 't' && s[i as int + 1] == 'r' && s[i as int + 2] == 'u'
                    && s[i as int + 3] == 'e');
            } else {
                assert(s[i + 0int] == t[0] && s[i + 1int] == t[1] && s[i + 2int] == t[2] && s[i
                    + 3int] == t[3] && s[i + 4int] == t[4]);
                assert(s[i as int] == 'f' && s[i as int + 1] == 'a' && s[i as int + 2] == 'l'
                    && s[i as int + 3] == 's' && s[i as int + 4] == 'e');
            }
            assert(spec_parse_value(s, i) == Some((v, e)));
        },
        JsonSpec::Num(lex) => {
            lemma_strict_chars(lex);
            assert(s[i + 0int] == t[0]);
            assert(s[i as int] == lex[0]);
            assert forall|k: int| i <= k < e implies num_char(#[trigger] s[k]) by {
                assert(s[i + (k - i)] == lex[k - i]);
                assert(num_char(lex[k - i]));
            }
            lemma_scan_num_run(s, i, e);
            assert(s.subrange(i as int, scan_num(s, i) as int) =~= lex);
            assert(num_lexeme_strict(s.subrange(i as int, scan_num(s, i) as int)));
            assert(lex[0] == '-' || digit_char(lex[0]));
            let u0 = lex[0] as u32;
            assert(lex[0] != '"' && lex[0] != '[' && lex[0] != '{' && lex[0] != 't' && lex[0]
                != 'f' && lex[0] != 'n') by {
                if digit_char(lex[0]) {
                    assert(0x30 <= u0 && u0 <= 0x39);
                } else {
                    assert(lex[0] == '-');
                    assert(u0 == 0x2D) by {
                        assert(('-' as u32) == 0x2D);
                    }
                }
                assert(('"' as u32) == 0x22);
                assert(('[' as u32) == 0x5B);
                assert(('{' as u32) == 0x7B);
                assert(('t' as u32) == 0x74);
                assert(('f' as u32) == 0x66);
                assert(('n' as u32) == 0x6E);
                if lex[0] == '"' {
                    assert(u0 == 0x22);
                }
                if lex[0] == '[' {
                    assert(u0 == 0x5B);
                }
                if lex[0] == '{' {
                    assert(u0 == 0x7B);
                }
                if lex[0] == 't' {
                    assert(u0 == 0x74);
                }
                if lex[0] == 'f' {
                    assert(u0 == 0x66);
                }
                if lex[0] == 'n' {
                    assert(u0 == 0x6E);
                }
            }
            assert(spec_parse_value(s, i) == Some((v, e)));
        },
        JsonSpec::Str(body) => {
            assert(t =~= seq!['"'] + esc_str(body) + seq!['"']);
            assert(t[0] == '"');
            assert(s[i + 0int] == t[0]);
            assert(s[i as int] == '"');
            assert(s.subrange(i as int + 1, (i + 1 + esc_str(body).len() + 1) as int) =~= esc_str(
                body,
            ) + seq!['"']) by {
                assert forall|k: int|
                    0 <= k < esc_str(body).len() + 1 implies s[i as int + 1 + k] == (esc_str(body)
                    + seq!['"'])[k] by {
                    assert(s[i + (1 + k)] == t[1 + k]);
                }
            }
            lemma_unescape(s, i + 1, body);
            assert(spec_parse_value(s, i) == Some((v, e)));
        },
        JsonSpec::Arr(items) => {
            assert(decreases_to!(v => items));
            assert(t[0] == '[') by {
                if items.len() == 0 {
                    assert(t =~= seq!['[', ']']);
                } else {
                    assert((seq!['['] + json_items_text(items) + seq![']'])[0] == '[');
                }
            }
            assert(s[i + 0int] == t[0]);
            assert(s[i as int] == '[');
            if items.len() == 0 {
                assert(t =~= seq!['[', ']']);
                assert(s[i + 1int] == t[1]);
                assert(s[i as int + 1] == ']');
                lemma_skip_ws_none(s, i + 1);
                assert(items =~= Seq::<JsonSpec>::empty());
                assert(e == i + 2);
            } else {
                let body = json_items_text(items);
                assert(t =~= seq!['['] + body + seq![']']);
                assert(s.subrange(i as int + 1, (i + 1 + body.len()) as int) =~= body) by {
                    assert forall|k: int|
                        0 <= k < body.len() implies s[i as int + 1 + k] == body[k] by {
                        assert(s[i + (1 + k)] == t[1 + k]);
                    }
                }
                assert(s[(i + 1 + body.len()) as int] == ']') by {
                    assert(s[i + (1 + body.len() as int)] == t[1 + body.len() as int]);
                }
                assert(wf_json(items[0]));
                lemma_json_text_len_pos(items[0]);
                lemma_items_text_structure(items);
                assert(body.len() >= 1);
                lemma_items_first_char(items);
                assert(body[0] == json_text(items[0])[0]) by {
                    lemma_items_text_structure(items);
                }
                assert(s[i as int + 1] == body[0]);
                assert(wf_json(items[0]));
                lemma_json_text_head(items[0]);
                lemma_skip_ws_none(s, i + 1);
                assert(skip_ws(s, i + 1) == i + 1);
                assert(s[i as int + 1] != ']');
                lemma_parse_elems_of_text(s, i + 1, items);
                assert(spec_parse_elems(s, i + 1) == Some((items, e)));
            }
            assert(spec_parse_value(s, i) == Some((v, e)));
        },
        JsonSpec::Obj(pairs) => {
            assert(decreases_to!(v => pairs));
            assert(t[0] == '{') by {
                if pairs.len() == 0 {
                    assert(t =~= seq!['{', '}']);
                } else {
                    assert((seq!['{'] + json_members_text(pairs) + seq!['}'])[0] == '{');
                }
            }
            assert(s[i + 0int] == t[0]);
            assert(s[i as int] == '{');
            if pairs.len() == 0 {
                assert(t =~= seq!['{', '}']);
                assert(s[i + 1int] == t[1]);
                assert(s[i as int + 1] == '}');
                lemma_skip_ws_none(s, i + 1);
                assert(pairs =~= Seq::<(Seq<char>, JsonSpec)>::empty());
                assert(e == i + 2);
            } else {
                let body = json_members_text(pairs);
                assert(t =~= seq!['{'] + body + seq!['}']);
                assert(s.subrange(i as int + 1, (i + 1 + body.len()) as int) =~= body) by {
                    assert forall|k: int|
                        0 <= k < body.len() implies s[i as int + 1 + k] == body[k] by {
                        assert(s[i + (1 + k)] == t[1 + k]);
                    }
                }
                assert(s[(i + 1 + body.len()) as int] == '}') by {
                    assert(s[i + (1 + body.len() as int)] == t[1 + body.len() as int]);
                }
                lemma_members_text_structure(pairs);
                assert(body.len() >= 1) by {
                    assert(json_members_text(pairs)[0] == '"');
                }
                assert(body[0] == '"');
                assert(s[i as int + 1] == '"');
                lemma_skip_ws_none(s, i + 1);
                assert(s[i as int + 1] != '}');
                lemma_parse_members_of_text(s, i + 1, pairs);
                assert(spec_parse_members(s, i + 1) == Some((pairs, e)));
            }
            assert(spec_parse_value(s, i) == Some((v, e)));
        },
    }
}

/// The element list text of a non-empty list starts with the first
/// element's text.
proof fn lemma_items_text_structure(items: Seq<JsonSpec>)
    requires
        items.len() >= 1,
    ensures
        items.len() == 1 ==> json_items_text(items) == json_text(items[0]),
        items.len() >= 2 ==> json_items_text(items) == json_text(items[0]) + seq![',']
            + json_items_text(items.drop_first()),
        json_items_text(items).len() >= json_text(items[0]).len(),
        forall|k: int|
            0 <= k < json_text(items[0]).len() ==> json_items_text(items)[k] == json_text(
                items[0],
            )[k],
{
}

proof fn lemma_items_first_char(items: Seq<JsonSpec>)
    requires
        items.len() >= 1,
        json_text(items[0]).len() >= 1,
    ensures
        json_items_text(items)[0] == json_text(items[0])[0],
{
    lemma_items_text_structure(items);
}

/// The member list text of a non-empty list starts with a quote.
proof fn lemma_members_text_structure(pairs: Seq<(Seq<char>, JsonSpec)>)
    requires
        pairs.len() >= 1,
    ensures
        json_members_text(pairs)[0] == '"',
        ({
            let head = seq!['"'] + esc_str(pairs[0].0) + seq!['"', ':'] + json_text(pairs[0].1);
            &&& (pairs.len() == 1 ==> json_members_text(pairs) == head)
            &&& (pairs.len() >= 2 ==> json_members_text(pairs) == head + seq![',']
                + json_members_text(pairs.drop_first()))
        }),
{
    let head = seq!['"'] + esc_str(pairs[0].0) + seq!['"', ':'] + json_text(pairs[0].1);
    assert(head[0] == '"');
    if pairs.len() == 1 {
        assert(json_members_text(pairs) == head);
    } else {
        assert(json_members_text(pairs) == head + seq![','] + json_members_text(
            pairs.drop_first(),
        ));
        assert((head + seq![','] + json_members_text(pairs.drop_first()))[0] == head[0]);
    }
}

/// Parsing the element list text (ending in the closing bracket) recovers
/// the elements.
#[verifier::rlimit(100)]
#[verifier::spinoff_prover]
proof fn lemma_parse_elems_of_text(s: Seq<char>, i: nat, items: Seq<JsonSpec>)
    requires
        items.len() >= 1,
        wf_items(items),
        i + json_items_text(items).len() + 1 <= s.len(),
        s.subrange(i as int, (i + json_items_text(items).len() + 1) as int) =~= json_items_text(
            items,
        ) + seq![']'],
    ensures
        spec_parse_elems(s, i) == Some(
            (items, (i + json_items_text(items).len() + 1) as nat),
        ),
    decreases items, 1int,
{
    let body = json_items_text(items);
    let e = (i + body.len() + 1) as nat;
    assert forall|k: int| 0 <= k < body.len() + 1 implies s[i + k] == (body + seq![']'])[k] by {
        assert(s.subrange(i as int, e as int)[k] == s[i + k]);
    }
    let t0 = json_text(items[0]);
    assert(wf_json(items[0]));
    lemma_items_text_structure(items);
    assert(s.subrange(i as int, (i + t0.len()) as int) =~= t0) by {
        assert forall|k: int| 0 <= k < t0.len() implies s[i + k] == t0[k] by {
            assert((body + seq![']'])[k] == body[k]);
        }
    }
    let delim = if items.len() == 1 {
        ']'
    } else {
        ','
    };
    assert(s[(i + t0.len()) as int] == delim) by {
        assert(s[i + t0.len() as int] == (body + seq![']'])[t0.len() as int]);
        if items.len() == 1 {
            assert((body + seq![']'])[t0.len() as int] == ']');
        } else {
            assert(body[t0.len() as int] == ',');
            assert((body + seq![']'])[t0.len() as int] == body[t0.len() as int]);
        }
    }
    assert(!num_char(delim));
    assert(decreases_to!(items => items[0]));
    lemma_parse_of_text(s, i, items[0]);
    let k = (i + t0.len()) as nat;
    lemma_json_text_len_pos(items[0]);
    assert(k > i);
    lemma_skip_ws_none(s, k);
    if items.len() == 1 {
        assert(s[k as int] == ']');
        assert(spec_parse_elems(s, i) == Some((seq![items[0]], (k + 1) as nat)));
        assert(seq![items[0]] =~= items);
        assert(k + 1 == e);
    } else {
        assert(s[k as int] == ',');
        let rest = items.drop_first();
        assert(wf_items(rest));
        assert(rest.len() >= 1);
        let rest_body = json_items_text(rest);
        assert(body =~= t0 + seq![','] + rest_body);
        assert(s.subrange((k + 1) as int, (k + 1 + rest_body.len() + 1) as int) =~= rest_body
            + seq![']']) by {
            assert forall|w: int|
                0 <= w < rest_body.len() + 1 implies s[(k + 1) as int + w] == (rest_body + seq![
                ']',
            ])[w] by {
                assert(s[i + (t0.len() as int + 1 + w)] == (body + seq![']'])[t0.len() as int + 1 + w]);
            }
        }
        assert(wf_json(rest[0]));
        lemma_json_text_len_pos(rest[0]);
        lemma_items_first_char(rest);
        assert(decreases_to!(items => items[0]));
        assert(wf_json(rest[0]));
        lemma_json_text_head(rest[0]);
        assert(s[(k + 1) as int] == rest_body[0]) by {
            assert(s[i + (t0.len() as int + 1)] == (body + seq![']'])[t0.len() as int + 1]);
        }
        lemma_skip_ws_none(s, k + 1);
        assert(decreases_to!(items => rest));
        lemma_parse_elems_of_text(s, k + 1, rest);
        assert(spec_parse_elems(s, k + 1) == Some((rest, e)));
        assert(seq![items[0]] + rest =~= items);
    }
}

/// Parsing the member list text (ending in the closing brace) recovers the
/// members.
#[verifier::rlimit(100)]
#[verifier::spinoff_prover]
proof fn lemma_parse_members_of_text(s: Seq<char>, i: nat, pairs: Seq<(Seq<char>, JsonSpec)>)
    requires
        pairs.len() >= 1,
        wf_members(pairs),
        i + json_members_text(pairs).len() + 1 <= s.len(),
        s.subrange(i as int, (i + json_members_text(pairs).len() + 1) as int)
            =~= json_members_text(pairs) + seq!['}'],
    ensures
        spec_parse_members(s, i) == Some(
            (pairs, (i + json_members_text(pairs).len() + 1) as nat),
        ),
    decreases pairs, 1int,
{
    let body = json_members_text(pairs);
    let e = (i + body.len() + 1) as nat;
    assert forall|k: int| 0 <= k < body.len() + 1 implies s[i + k] == (body + seq!['}'])[k] by {
        assert(s.subrange(i as int, e as int)[k] == s[i + k]);
    }
    let key = pairs[0].0;
    let v0 = pairs[0].1;
    assert(decreases_to!(pairs => pairs[0]));
    assert(decreases_to!(pairs[0] => pairs[0].1));
    assert(wf_json(v0));
    let head = seq!['"'] + esc_str(key) + seq!['"', ':'] + json_text(v0);
    lemma_members_text_structure(pairs);
    assert(body.len() >= head.len());
    assert(forall|k: int| 0 <= k < head.len() ==> body[k] == head[k]) by {
        if pairs.len() >= 2 {
            assert(forall|k: int|
                0 <= k < head.len() ==> (head + seq![','] + json_members_text(
                    pairs.drop_first(),
                ))[k] == head[k]);
        }
    }
    assert(s[i as int] == '"') by {
        assert(s[i + 0int] == (body + seq!['}'])[0]);
    }
    // the key string
    assert(s.subrange(i as int + 1, (i + 1 + esc_str(key).len() + 1) as int) =~= esc_str(key)
        + seq!['"']) by {
        assert forall|k: int|
            0 <= k < esc_str(key).len() + 1 implies s[i as int + 1 + k] == (esc_str(key) + seq![
            '"',
        ])[k] by {
            assert(s[i + (1 + k)] == (body + seq!['}'])[1 + k]);
            assert(head[1 + k] == (esc_str(key) + seq!['"'])[k]);
        }
    }
    lemma_unescape(s, i + 1, key);
    let c1 = (i + 1 + esc_str(key).len() + 1) as nat;
    assert(s[c1 as int] == ':') by {
        assert(s[i + (esc_str(key).len() as int + 2)] == (body + seq!['}'])[esc_str(key).len() as int + 2]);
        assert(head[esc_str(key).len() as int + 2] == ':');
    }
    lemma_skip_ws_none(s, c1);
    let vstart = (c1 + 1) as nat;
    let t0 = json_text(v0);
    assert(s.subrange(vstart as int, (vstart + t0.len()) as int) =~= t0) by {
        assert forall|k: int| 0 <= k < t0.len() implies s[vstart as int + k] == t0[k] by {
            assert(s[i + (esc_str(key).len() + 3 + k)] == (body + seq!['}'])[esc_str(key).len() + 3
                + k]);
            assert(head[esc_str(key).len() as int + 3 + k] == t0[k]);
        }
    }
    lemma_json_text_head(v0);
    assert(s[vstart as int] == t0[0]) by {
        assert(s.subrange(vstart as int, (vstart + t0.len()) as int)[0] == s[vstart as int]);
        lemma_json_text_len_pos(v0);
    }
    lemma_skip_ws_none(s, vstart);
    let delim = if pairs.len() == 1 {
        '}'
    } else {
        ','
    };
    let k3 = (vstart + t0.len()) as nat;
    assert(s[k3 as int] == delim) by {
        assert(s[i + head.len() as int] == (body + seq!['}'])[head.len() as int]);
        if pairs.len() == 1 {
            assert((body + seq!['}'])[head.len() as int] == '}');
        } else {
            assert(body[head.len() as int] == ',');
        }
    }
    assert(!num_char(delim));
    lemma_parse_of_text(s, vstart, v0);
    lemma_json_text_len_pos(v0);
    lemma_skip_ws_none(s, k3);
    if pairs.len() == 1 {
        assert(spec_parse_members(s, i) == Some((seq![(key, v0)], (k3 + 1) as nat)));
        assert(seq![(key, v0)] =~= pairs);
        assert(k3 + 1 == e);
    } else {
        let rest = pairs.drop_first();
        assert(wf_members(rest));
        let rest_body = json_members_text(rest);
        assert(body =~= head + seq![','] + rest_body);
        assert(s.subrange((k3 + 1) as int, (k3 + 1 + rest_body.len() + 1) as int) =~= rest_body
            + seq!['}']) by {
            assert forall|w: int|
                0 <= w < rest_body.len() + 1 implies s[(k3 + 1) as int + w] == (rest_body + seq![
                '}',
            ])[w] by {
                assert(s[i + (head.len() as int + 1 + w)] == (body + seq!['}'])[head.len() as int + 1 + w]);
            }
        }
        lemma_members_text_structure(rest);
        assert(s[(k3 + 1) as int] == '"') by {
            assert(s[i + (head.len() as int + 1)] == (body + seq!['}'])[head.len() as int + 1]);
        }
        lemma_skip_ws_none(s, k3 + 1);
        assert(decreases_to!(pairs => rest));
        lemma_parse_members_of_text(s, k3 + 1, rest);
        assert(spec_parse_members(s, k3 + 1) == Some((rest, e)));
        assert(seq![(key, v0)] + rest =~= pairs);
    }
}

/// A well-formed value's compact text parses back to exactly that value.
pub proof fn lemma_json_round_trip(v: JsonSpec)
    requires
        wf_json(v),
    ensures
        spec_parse_json(json_text(v)) == Some(v),
{
    let t = json_text(v);
    lemma_json_text_len_pos(v);
    lemma_json_text_head(v);
    assert(t.subrange(0, t.len() as int) =~= t);
    lemma_skip_ws_none(t, 0);
    lemma_parse_of_text(t, 0, v);
    lemma_skip_ws_none(t, t.len() as nat);
}


/// Whatever the parser accepts is well formed.
proof fn lemma_parse_wf_value(s: Seq<char>, i: nat)
    ensures
        spec_parse_value(s, i) matches Some(p) ==> wf_json(p.0),
    decreases s.len() - i, 0int,
{
    if i < s.len() {
        let c = s[i as int];
        if c == '"' {
        } else if c == '[' {
            let j = skip_ws(s, i + 1);
            lemma_skip_ws_bounds(s, i + 1);
            if j < s.len() && s[j as int] == ']' {
                assert(wf_items(Seq::empty()));
            } else if j < s.len() {
                lemma_parse_wf_elems(s, j);
            }
        } else if c == '{' {
            let j = skip_ws(s, i + 1);
            lemma_skip_ws_bounds(s, i + 1);
            if j < s.len() && s[j as int] == '}' {
                assert(wf_members(Seq::empty()));
            } else if j < s.len() {
                lemma_parse_wf_members(s, j);
            }
        } else if c == 't' || c == 'f' || c == 'n' {
        } else if c == '-' || digit_char(c) {
            lemma_scan_num_bounds(s, i);
        }
    }
}

proof fn lemma_parse_wf_elems(s: Seq<char>, j: nat)
    ensures
        spec_parse_elems(s, j) matches Some(q) ==> wf_items(q.0),
    decreases s.len() - j, 1int,
{
    lemma_parse_wf_value(s, j);
    match spec_parse_value(s, j) {
        None => {},
        Some(p) => {
            let k = p.1;
            if k <= j || k > s.len() {
            } else {
                let k2 = skip_ws(s, k);
                lemma_skip_ws_bounds(s, k);
                if k2 < s.len() && s[k2 as int] == ',' {
                    let j2 = skip_ws(s, k2 + 1);
                    lemma_skip_ws_bounds(s, k2 + 1);
                    lemma_parse_wf_elems(s, j2);
                    match spec_parse_elems(s, j2) {
                        Some(q) => {
                            assert(wf_items(seq![p.0] + q.0)) by {
                                assert((seq![p.0] + q.0)[0] == p.0);
                                assert((seq![p.0] + q.0).drop_first() =~= q.0);
                            }
                        },
                        None => {},
                    }
                } else if k2 < s.len() && s[k2 as int] == ']' {
                    assert(wf_items(seq![p.0])) by {
                        assert(seq![p.0][0] == p.0);
                        assert(seq![p.0].drop_first() =~= Seq::<JsonSpec>::empty());
                        assert(wf_items(Seq::<JsonSpec>::empty()));
                    }
                }
            }
        },
    }
}

proof fn lemma_parse_wf_members(s: Seq<char>, j: nat)
    ensures
        spec_parse_members(s, j) matches Some(q) ==> wf_members(q.0),
    decreases s.len() - j, 1int,
{
    if j >= s.len() || s[j as int] != '"' {
    } else {
        match parse_str_body(s, j + 1) {
            None => {},
            Some(kp) => {
                let key = kp.0;
                let k = kp.1;
                lemma_parse_str_body_bounds(s, j + 1);
                let c1 = skip_ws(s, k);
                lemma_skip_ws_bounds(s, k);
                if c1 >= s.len() || s[c1 as int] != ':' {
                } else {
                    let vstart = skip_ws(s, c1 + 1);
                    lemma_skip_ws_bounds(s, c1 + 1);
                    lemma_parse_wf_value(s, vstart);
                    match spec_parse_value(s, vstart) {
                        None => {},
                        Some(p) => {
                            let k3 = p.1;
                            if k3 <= vstart || k3 > s.len() {
                            } else {
                                let k4 = skip_ws(s, k3);
                                lemma_skip_ws_bounds(s, k3);
                                if k4 < s.len() && s[k4 as int] == ',' {
                                    let j2 = skip_ws(s, k4 + 1);
                                    lemma_skip_ws_bounds(s, k4 + 1);
                                    lemma_parse_wf_members(s, j2);
                                    match spec_parse_members(s, j2) {
                                        Some(q) => {
                                            assert(wf_members(seq![(key, p.0)] + q.0)) by {
                                                assert((seq![(key, p.0)] + q.0)[0] == (key, p.0));
                                                assert((seq![(key, p.0)] + q.0).drop_first()
                                                    =~= q.0);
                                            }
                                        },
                                        None => {},
                                    }
                                } else if k4 < s.len() && s[k4 as int] == '}' {
                                    assert(wf_members(seq![(key, p.0)])) by {
                                        assert(seq![(key, p.0)][0] == (key, p.0));
                                        assert(seq![(key, p.0)].drop_first() =~= Seq::<
                                            (Seq<char>, JsonSpec),
                                        >::empty());
                                        assert(wf_members(
                                            Seq::<(Seq<char>, JsonSpec)>::empty(),
                                        ));
                                    }
                                }
                            }
                        },
                    }
                }
            },
        }
    }
}

/// Whatever a whole document parses to is well formed.
pub proof fn lemma_parse_json_wf(s: Seq<char>)
    ensures
        spec_parse_json(s) matches Some(v) ==> wf_json(v),
{
    lemma_parse_wf_value(s, skip_ws(s, 0));
}

/// Elements of a well-formed list are well formed.
pub proof fn lemma_wf_items_index(items: Seq<JsonSpec>, k: int)
    requires
        wf_items(items),
        0 <= k < items.len(),
    ensures
        wf_json(items[k]),
    decreases k,
{
    if k > 0 {
        lemma_wf_items_index(items.drop_first(), k - 1);
        assert(items.drop_first()[k - 1] == items[k]);
    }
}


/// A compact text neither starts nor ends with white space.
pub proof fn lemma_json_text_no_ws_ends(v: JsonSpec)
    requires
        wf_json(v),
    ensures
        json_text(v).len() >= 1,
        !crate::text::is_space_char(json_text(v)[0]),
        !crate::text::is_space_char(json_text(v).last()),
{
    let t = json_text(v);
    lemma_json_text_len_pos(v);
    match v {
        JsonSpec::Null => {
            assert(t[0] == 'n' && t.last() == 'l');
            assert(('n' as u32) == 0x6E && ('l' as u32) == 0x6C);
        },
        JsonSpec::Bool(b) => {
            if b {
                assert(t[0] == 't' && t.last() == 'e');
            } else {
                assert(t[0] == 'f' && t.last() == 'e');
            }
            assert(('t' as u32) == 0x74 && ('f' as u32) == 0x66 && ('e' as u32) == 0x65);
        },
        JsonSpec::Num(lex) => {
            lemma_strict_chars(lex);
            assert(num_char(t[0]) && num_char(t.last()));
            lemma_num_char_not_space(t[0]);
            lemma_num_char_not_space(t.last());
        },
        JsonSpec::Str(body) => {
            assert(t =~= seq!['"'] + esc_str(body) + seq!['"']);
            assert(t[0] == '"' && t.last() == '"');
            assert(('"' as u32) == 0x22);
        },
        JsonSpec::Arr(items) => {
            if items.len() == 0 {
                assert(t =~= seq!['[', ']']);
            } else {
                assert(t =~= seq!['['] + json_items_text(items) + seq![']']);
            }
            assert(t[0] == '[' && t.last() == ']');
            assert(('[' as u32) == 0x5B && (']' as u32) == 0x5D);
        },
        JsonSpec::Obj(pairs) => {
            if pairs.len() == 0 {
                assert(t =~= seq!['{', '}']);
            } else {
                assert(t =~= seq!['{'] + json_members_text(pairs) + seq!['}']);
            }
            assert(t[0] == '{' && t.last() == '}');
            assert(('{' as u32) == 0x7B && ('}' as u32) == 0x7D);
        },
    }
}

proof fn lemma_num_char_not_space(c: char)
    requires
        num_char(c),
    ensures
        !crate::text::is_space_char(c),
{
    if digit_char(c) {
    } else {
        assert(('-' as u32) == 0x2D && ('+' as u32) == 0x2B && ('.' as u32) == 0x2E && ('e'
            as u32) == 0x65 && ('E' as u32) == 0x45);
    }
}

/// A text with no white space at either end trims to itself.
pub proof fn lemma_trim_identity(s: Seq<char>)
    requires
        s.len() >= 1,
        !crate::text::is_space_char(s[0]),
        !crate::text::is_space_char(s.last()),
    ensures
        crate::text::trim_spec(s) == s,
{
}

} // verus!
