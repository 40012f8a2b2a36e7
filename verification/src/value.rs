//! Runtime values — the dynamic types of the language.

use std::rc::Rc;

use vstd::prelude::*;

use crate::ast::Function;
use crate::host::{Host, Order};
use crate::map::{Key, KeyView, PlayMap, distinct_keys, has_key, key_eq, map_get, valid_key};
use crate::number::{num_eq, numbers_equal};
use crate::text::{chars_of, push_str, same};

verus! {

/// The host builtins reachable as plain names (unless shadowed).
#[derive(Debug, Clone, Copy, PartialEq, Eq, Structural)]
pub enum Builtin {
    Print,
    GetOperations,
    GetOperationsLimit,
    Str,
    Len,
    Array,
    Push,
    Has,
    Keys,
    Remove,
}

/// The name a builtin is called by.
pub open spec fn builtin_name(b: Builtin) -> Seq<char> {
    match b {
        Builtin::Print => seq!['p', 'r', 'i', 'n', 't'],
        Builtin::GetOperations => seq![
            'g', 'e', 't', 'O', 'p', 'e', 'r', 'a', 't', 'i', 'o', 'n', 's',
        ],
        Builtin::GetOperationsLimit => seq![
            'g', 'e', 't', 'O', 'p', 'e', 'r', 'a', 't', 'i', 'o', 'n', 's', 'L', 'i', 'm', 'i', 't',
        ],
        Builtin::Str => seq!['s', 't', 'r'],
        Builtin::Len => seq!['l', 'e', 'n'],
        Builtin::Array => seq!['a', 'r', 'r', 'a', 'y'],
        Builtin::Push => seq!['p', 'u', 's', 'h'],
        Builtin::Has => seq!['h', 'a', 's'],
        Builtin::Keys => seq!['k', 'e', 'y', 's'],
        Builtin::Remove => seq!['r', 'e', 'm', 'o', 'v', 'e'],
    }
}

impl Builtin {
    /// The builtin's name, as a string slice.
    pub fn name(self) -> (s: &'static str)
        ensures
            s@ == builtin_name(self),
    {
        match self {
            Builtin::Print => {
                proof {
                    reveal_strlit("print");
                    assert(builtin_name(self) =~= "print"@);
                }
                "print"
            },
            Builtin::GetOperations => {
                proof {
                    reveal_strlit("getOperations");
                    assert(builtin_name(self) =~= "getOperations"@);
                }
                "getOperations"
            },
            Builtin::GetOperationsLimit => {
                proof {
                    reveal_strlit("getOperationsLimit");
                    assert(builtin_name(self) =~= "getOperationsLimit"@);
                }
                "getOperationsLimit"
            },
            Builtin::Str => {
                proof {
                    reveal_strlit("str");
                    assert(builtin_name(self) =~= "str"@);
                }
                "str"
            },
            Builtin::Len => {
                proof {
                    reveal_strlit("len");
                    assert(builtin_name(self) =~= "len"@);
                }
                "len"
            },
            Builtin::Array => {
                proof {
                    reveal_strlit("array");
                    assert(builtin_name(self) =~= "array"@);
                }
                "array"
            },
            Builtin::Push => {
                proof {
                    reveal_strlit("push");
                    assert(builtin_name(self) =~= "push"@);
                }
                "push"
            },
            Builtin::Has => {
                proof {
                    reveal_strlit("has");
                    assert(builtin_name(self) =~= "has"@);
                }
                "has"
            },
            Builtin::Keys => {
                proof {
                    reveal_strlit("keys");
                    assert(builtin_name(self) =~= "keys"@);
                }
                "keys"
            },
            Builtin::Remove => {
                proof {
                    reveal_strlit("remove");
                    assert(builtin_name(self) =~= "remove"@);
                }
                "remove"
            },
        }
    }

    /// The builtin a name stands for, if any.
    pub fn from_name(name: &str) -> (r: Option<Builtin>)
        ensures
            match r {
                Some(b) => builtin_name(b) == name@,
                None => forall|b: Builtin| builtin_name(b) != name@,
            },
    {
        proof {
            reveal_strlit("print");
            assert(builtin_name(Builtin::Print) =~= "print"@);
        }
        if same(name, "print") {
            return Some(Builtin::Print);
        }
        proof {
            reveal_strlit("getOperations");
            assert(builtin_name(Builtin::GetOperations) =~= "getOperations"@);
        }
        if same(name, "getOperations") {
            return Some(Builtin::GetOperations);
        }
        proof {
            reveal_strlit("getOperationsLimit");
            assert(builtin_name(Builtin::GetOperationsLimit) =~= "getOperationsLimit"@);
        }
        if same(name, "getOperationsLimit") {
            return Some(Builtin::GetOperationsLimit);
        }
        proof {
            reveal_strlit("str");
            assert(builtin_name(Builtin::Str) =~= "str"@);
        }
        if same(name, "str") {
            return Some(Builtin::Str);
        }
        proof {
            reveal_strlit("len");
            assert(builtin_name(Builtin::Len) =~= "len"@);
        }
        if same(name, "len") {
            return Some(Builtin::Len);
        }
        proof {
            reveal_strlit("array");
            assert(builtin_name(Builtin::Array) =~= "array"@);
        }
        if same(name, "array") {
            return Some(Builtin::Array);
        }
        proof {
            reveal_strlit("push");
            assert(builtin_name(Builtin::Push) =~= "push"@);
        }
        if same(name, "push") {
            return Some(Builtin::Push);
        }
        proof {
            reveal_strlit("has");
            assert(builtin_name(Builtin::Has) =~= "has"@);
        }
        if same(name, "has") {
            return Some(Builtin::Has);
        }
        proof {
            reveal_strlit("keys");
            assert(builtin_name(Builtin::Keys) =~= "keys"@);
        }
        if same(name, "keys") {
            return Some(Builtin::Keys);
        }
        proof {
            reveal_strlit("remove");
            assert(builtin_name(Builtin::Remove) =~= "remove"@);
        }
        if same(name, "remove") {
            return Some(Builtin::Remove);
        }
        assert forall|b: Builtin| builtin_name(b) != name@ by {
            match b {
                Builtin::Print => {
                    reveal_strlit("print");
                    assert(builtin_name(b) =~= "print"@);
                },
                Builtin::GetOperations => {
                    reveal_strlit("getOperations");
                    assert(builtin_name(b) =~= "getOperations"@);
                },
                Builtin::GetOperationsLimit => {
                    reveal_strlit("getOperationsLimit");
                    assert(builtin_name(b) =~= "getOperationsLimit"@);
                },
                Builtin::Str => {
                    reveal_strlit("str");
                    assert(builtin_name(b) =~= "str"@);
                },
                Builtin::Len => {
                    reveal_strlit("len");
                    assert(builtin_name(b) =~= "len"@);
                },
                Builtin::Array => {
                    reveal_strlit("array");
                    assert(builtin_name(b) =~= "array"@);
                },
                Builtin::Push => {
                    reveal_strlit("push");
                    assert(builtin_name(b) =~= "push"@);
                },
                Builtin::Has => {
                    reveal_strlit("has");
                    assert(builtin_name(b) =~= "has"@);
                },
                Builtin::Keys => {
                    reveal_strlit("keys");
                    assert(builtin_name(b) =~= "keys"@);
                },
                Builtin::Remove => {
                    reveal_strlit("remove");
                    assert(builtin_name(b) =~= "remove"@);
                },
            }
        }
        None
    }
}

/// A function value: shared code plus the locals it captured — by value —
/// when it was created. Globals are not captured; they stay live, which is
/// what keeps top-level recursion working. `id` is the closure's identity:
/// every creation of a function value gets a fresh one.
#[derive(Debug)]
pub struct Closure {
    pub id: u64,
    pub function: Rc<Function>,
    pub captures: Vec<(String, Value)>,
}

/// A runtime value. Numbers are IEEE-754 doubles held as their bit
/// patterns; strings are immutable; arrays and maps have value semantics
/// (copy-on-write behind an `Rc`), so no aliasing is ever observable.
#[derive(Debug)]
pub enum Value {
    Number(u64),
    Bool(bool),
    Str(String),
    Array(Rc<Vec<Value>>),
    /// Insertion-ordered map from primitive keys.
    Dict(Rc<PlayMap<Value>>),
    /// A first-class user function.
    Function(Rc<Closure>),
    /// A host builtin referenced as a value, e.g. `var p = print`.
    Builtin(Builtin),
}

impl Clone for Value {
    fn clone(&self) -> (v: Self)
        ensures
            v == *self,
    {
        match self {
            Value::Number(n) => Value::Number(*n),
            Value::Bool(b) => Value::Bool(*b),
            Value::Str(s) => Value::Str(s.clone()),
            Value::Array(items) => Value::Array(Rc::clone(items)),
            Value::Dict(map) => Value::Dict(Rc::clone(map)),
            Value::Function(c) => Value::Function(Rc::clone(c)),
            Value::Builtin(b) => Value::Builtin(*b),
        }
    }
}

/// The human-readable name of a value's type.
pub open spec fn type_label_of(v: Value) -> &'static str {
    match v {
        Value::Number(_) => "number",
        Value::Bool(_) => "bool",
        Value::Str(_) => "string",
        Value::Array(_) => "array",
        Value::Dict(_) => "map",
        Value::Function(_) => "function",
        Value::Builtin(_) => "function",
    }
}

/// The map key a value stands for, if it is a primitive.
pub open spec fn key_of(v: Value) -> Option<KeyView> {
    match v {
        Value::Number(n) => Some(KeyView::Num(n)),
        Value::Bool(b) => Some(KeyView::Bool(b)),
        Value::Str(s) => Some(KeyView::Str(s@)),
        _ => None,
    }
}

impl Value {
    /// Human-readable type name, used in error messages.
    pub fn type_label(&self) -> (s: &'static str)
        ensures
            s == type_label_of(*self),
    {
        match self {
            Value::Number(_) => "number",
            Value::Bool(_) => "bool",
            Value::Str(_) => "string",
            Value::Array(_) => "array",
            Value::Dict(_) => "map",
            Value::Function(_) | Value::Builtin(_) => "function",
        }
    }

    /// The map key this value stands for (numbers, bools and strings only).
    pub fn to_key(&self) -> (k: Option<Key>)
        ensures
            match key_of(*self) {
                Some(kv) => k matches Some(kk) && kk@ == kv,
                None => k is None,
            },
    {
        match self {
            Value::Number(n) => Some(Key::Num(*n)),
            Value::Bool(b) => Some(Key::Bool(*b)),
            Value::Str(s) => Some(Key::Str(s.clone())),
            _ => None,
        }
    }

    /// The value a map key stands for.
    pub fn from_key(k: &Key) -> (v: Value)
        ensures
            key_of(v) == Some(k@),
    {
        match k {
            Key::Num(n) => Value::Number(*n),
            Key::Bool(b) => Value::Bool(*b),
            Key::Str(s) => Value::Str(s.clone()),
        }
    }

    /// If this is a map, its entries in insertion order, keys as values.
    pub fn map_entries(&self) -> (r: Option<Vec<(Value, Value)>>)
        ensures
            match *self {
                Value::Dict(m) => r matches Some(v) && v@.len() == m@.len() && forall|i: int|
                    0 <= i < v@.len() ==> key_of((#[trigger] v@[i]).0) == Some(m@[i].0) && v@[i].1
                        == m@[i].1,
                _ => r is None,
            },
    {
        match self {
            Value::Dict(map) => {
                let mut out: Vec<(Value, Value)> = Vec::new();
                let n = map.len();
                let mut i: usize = 0;
                while i < n
                    invariant
                        n == map@.len(),
                        i <= n,
                        out@.len() == i,
                        forall|j: int|
                            0 <= j < i ==> key_of((#[trigger] out@[j]).0) == Some(map@[j].0)
                                && out@[j].1 == map@[j].1,
                    decreases n - i,
                {
                    let (k, v) = map.entry(i);
                    out.push((Value::from_key(k), v.clone()));
                    i = i + 1;
                }
                Some(out)
            },
            _ => None,
        }
    }
}

/// How a map key prints: like the value it stands for.
pub fn render_key<H: Host>(host: &H, k: &Key) -> (s: String)
    ensures
        s@ == key_printed::<H>(k@),
{
    match k {
        Key::Num(n) => host.format(*n),
        Key::Bool(b) => if *b {
            "true".to_owned()
        } else {
            "false".to_owned()
        },
        Key::Str(x) => x.clone(),
    }
}

/// Texts joined with a separator between neighbours.
pub open spec fn joined(parts: Seq<Seq<char>>, sep: Seq<char>) -> Seq<char>
    decreases parts.len(),
{
    if parts.len() == 0 {
        Seq::empty()
    } else if parts.len() == 1 {
        parts[0]
    } else {
        joined(parts.drop_last(), sep) + sep + parts.last()
    }
}

/// How a map key prints: a number in the host's decimal form.
pub open spec fn key_printed<H: Host>(k: KeyView) -> Seq<char> {
    match k {
        KeyView::Str(x) => x,
        KeyView::Bool(b) => if b {
            "true"@
        } else {
            "false"@
        },
        KeyView::Num(n) => H::decimal(n)@,
    }
}

/// How many parts a container prints: its items, or its entries.
pub open spec fn part_count(v: Value) -> nat {
    match v {
        Value::Array(xs) => xs@.len(),
        Value::Dict(m) => m@.len(),
        _ => 0,
    }
}

/// How a value prints: a number in the host's decimal form, a string as its
/// characters (no quotes), an array as `[a, b]`, a map as `{k: v}` in
/// insertion order, a function by its name.
pub open spec fn printed<H: Host>(v: Value) -> Seq<char>
    decreases v, part_count(v) + 1,
    via printed_decreases::<H>
{
    match v {
        Value::Number(n) => H::decimal(n)@,
        Value::Bool(b) => if b {
            "true"@
        } else {
            "false"@
        },
        Value::Str(x) => x@,
        Value::Builtin(b) => "<builtin "@ + builtin_name(b) + ">"@,
        Value::Function(c) => match c.function.name {
            Some(n) => "<function "@ + n@ + ">"@,
            None => "<lambda>"@,
        },
        Value::Array(_) => "["@ + joined(printed_parts::<H>(v, 0), ", "@) + "]"@,
        Value::Dict(_) => "{"@ + joined(printed_parts::<H>(v, 0), ", "@) + "}"@,
    }
}

/// The texts of the parts of a container from the `i`-th on: an item's
/// text, or an entry's `key: value`.
pub open spec fn printed_parts<H: Host>(v: Value, i: int) -> Seq<Seq<char>>
    decreases v, part_count(v) - i,
    via printed_parts_decreases::<H>
{
    if i < 0 || i >= part_count(v) {
        Seq::empty()
    } else {
        let first = match v {
            Value::Array(xs) => printed::<H>(xs@[i]),
            Value::Dict(m) => key_printed::<H>(m@[i].0) + ": "@ + printed::<H>(m@[i].1),
            _ => Seq::empty(),
        };
        seq![first] + printed_parts::<H>(v, i + 1)
    }
}

#[via_fn]
proof fn printed_decreases<H: Host>(v: Value) {
}

#[via_fn]
proof fn printed_parts_decreases<H: Host>(v: Value, i: int) {
    if 0 <= i < part_count(v) {
        match v {
            Value::Array(xs) => {
                lemma_item_decreases(v, i);
            },
            Value::Dict(m) => {
                lemma_entry_value_decreases(v, i);
            },
            _ => {},
        }
    }
}

/// The parts of a container, element by element.
proof fn lemma_printed_parts<H: Host>(v: Value, i: int)
    requires
        0 <= i <= part_count(v),
    ensures
        printed_parts::<H>(v, i).len() == part_count(v) - i,
        forall|j: int|
            0 <= j < part_count(v) - i ==> #[trigger] printed_parts::<H>(v, i)[j]
                == printed_parts::<H>(v, i + j)[0],
    decreases part_count(v) - i,
{
    if i < part_count(v) {
        lemma_printed_parts::<H>(v, i + 1);
        assert forall|j: int| 0 <= j < part_count(v) - i implies #[trigger] printed_parts::<H>(
            v,
            i,
        )[j] == printed_parts::<H>(v, i + j)[0] by {
            if j > 0 {
                assert(printed_parts::<H>(v, i)[j] == printed_parts::<H>(v, i + 1)[j - 1]);
            }
        }
    }
}

/// How a value prints (see `printed`).
pub fn render<H: Host>(host: &H, v: &Value) -> (s: String)
    ensures
        s@ == printed::<H>(*v),
    decreases v,
{
    match v {
        Value::Number(n) => host.format(*n),
        Value::Bool(b) => if *b {
            "true".to_owned()
        } else {
            "false".to_owned()
        },
        Value::Str(x) => x.clone(),
        Value::Array(items) => {
            let open = "[";
            let sep = ", ";
            let mut s = open.to_owned();
            let ghost mut parts: Seq<Seq<char>> = Seq::empty();
            let mut i: usize = 0;
            while i < items.len()
                invariant
                    *v == Value::Array(*items),
                    i <= items@.len(),
                    parts.len() == i,
                    s@ == open@ + joined(parts, sep@),
                    forall|j: int| 0 <= j < i ==> #[trigger] parts[j] == printed::<H>(items@[j]),
                decreases items@.len() - i,
            {
                if i > 0 {
                    push_str(&mut s, sep);
                }
                proof {
                    lemma_item_decreases(*v, i as int);
                }
                let t = render(host, &items[i]);
                push_str(&mut s, t.as_str());
                proof {
                    let next = parts.push(t@);
                    assert(next.drop_last() =~= parts);
                    assert(s@ =~= open@ + joined(next, sep@));
                    parts = next;
                }
                i = i + 1;
            }
            push_str(&mut s, "]");
            proof {
                lemma_printed_parts::<H>(*v, 0);
                assert forall|j: int| 0 <= j < parts.len() implies parts[j]
                    == printed_parts::<H>(*v, 0)[j] by {
                    assert(printed_parts::<H>(*v, j)[0] == printed::<H>(items@[j]));
                }
                assert(parts =~= printed_parts::<H>(*v, 0));
            }
            s
        },
        Value::Dict(m) => {
            let open = "{";
            let sep = ", ";
            let mut s = open.to_owned();
            let ghost mut parts: Seq<Seq<char>> = Seq::empty();
            let mut i: usize = 0;
            while i < m.len()
                invariant
                    *v == Value::Dict(*m),
                    i <= m@.len(),
                    parts.len() == i,
                    s@ == open@ + joined(parts, sep@),
                    forall|j: int|
                        0 <= j < i ==> #[trigger] parts[j] == key_printed::<H>(m@[j].0) + ": "@
                            + printed::<H>(m@[j].1),
                decreases m@.len() - i,
            {
                if i > 0 {
                    push_str(&mut s, sep);
                }
                let (k, x) = m.entry(i);
                proof {
                    lemma_entry_value_decreases(*v, i as int);
                }
                let mut entry = render_key(host, k);
                push_str(&mut entry, ": ");
                let t = render(host, x);
                push_str(&mut entry, t.as_str());
                push_str(&mut s, entry.as_str());
                proof {
                    let next = parts.push(entry@);
                    assert(next.drop_last() =~= parts);
                    assert(s@ =~= open@ + joined(next, sep@));
                    parts = next;
                }
                i = i + 1;
            }
            push_str(&mut s, "}");
            proof {
                lemma_printed_parts::<H>(*v, 0);
                assert forall|j: int| 0 <= j < parts.len() implies parts[j]
                    == printed_parts::<H>(*v, 0)[j] by {
                    assert(printed_parts::<H>(*v, j)[0] == key_printed::<H>(m@[j].0) + ": "@
                        + printed::<H>(m@[j].1));
                }
                assert(parts =~= printed_parts::<H>(*v, 0));
            }
            s
        },
        Value::Function(c) => match &c.function.name {
            Some(n) => {
                let mut s = "<function ".to_owned();
                push_str(&mut s, n.as_str());
                push_str(&mut s, ">");
                s
            },
            None => "<lambda>".to_owned(),
        },
        Value::Builtin(b) => {
            let mut s = "<builtin ".to_owned();
            push_str(&mut s, b.name());
            push_str(&mut s, ">");
            s
        },
    }
}

/// Lexicographic order of character sequences, by code point — the order of
/// their UTF-8 encodings, which is how std orders strings.
pub open spec fn lex_order(a: Seq<char>, b: Seq<char>) -> Order
    decreases a.len(),
{
    if a.len() == 0 {
        if b.len() == 0 {
            Order::Equal
        } else {
            Order::Less
        }
    } else if b.len() == 0 {
        Order::Greater
    } else if (a[0] as u32) < (b[0] as u32) {
        Order::Less
    } else if (a[0] as u32) > (b[0] as u32) {
        Order::Greater
    } else {
        lex_order(a.drop_first(), b.drop_first())
    }
}

/// A proper prefix orders before the longer string, and the longer string
/// after it (so the empty string is below every other).
pub proof fn law_prefix_orders_first(a: Seq<char>, b: Seq<char>)
    requires
        b.len() > 0,
    ensures
        lex_order(a, a + b) == Order::Less,
        lex_order(a + b, a) == Order::Greater,
    decreases a.len(),
{
    if a.len() > 0 {
        assert((a + b).drop_first() =~= a.drop_first() + b);
        assert((a + b)[0] == a[0]);
        law_prefix_orders_first(a.drop_first(), b);
    }
}

/// The order is antisymmetric: `a` is below `b` exactly when `b` is above
/// `a`, the two compare equal in either order or in neither, and every
/// sequence compares equal to itself.
pub proof fn law_string_order_is_antisymmetric(a: Seq<char>, b: Seq<char>)
    ensures
        lex_order(a, b) == Order::Less <==> lex_order(b, a) == Order::Greater,
        lex_order(a, b) == Order::Equal <==> lex_order(b, a) == Order::Equal,
        a == b ==> lex_order(a, b) == Order::Equal,
    decreases a.len(),
{
    if a.len() > 0 && b.len() > 0 {
        law_string_order_is_antisymmetric(a.drop_first(), b.drop_first());
    }
}

/// A common prefix does not affect the order, and the first differing
/// characters decide it by their code points.
pub proof fn law_string_order_by_first_difference(p: Seq<char>, a: Seq<char>, b: Seq<char>, c: char, d: char)
    ensures
        lex_order(p + a, p + b) == lex_order(a, b),
        (c as u32) < (d as u32) ==> lex_order(p + (seq![c] + a), p + (seq![d] + b)) == Order::Less,
    decreases p.len(),
{
    if p.len() > 0 {
        assert((p + a).drop_first() =~= p.drop_first() + a);
        assert((p + b).drop_first() =~= p.drop_first() + b);
        assert((p + (seq![c] + a)).drop_first() =~= p.drop_first() + (seq![c] + a));
        assert((p + (seq![d] + b)).drop_first() =~= p.drop_first() + (seq![d] + b));
        law_string_order_by_first_difference(p.drop_first(), a, b, c, d);
    } else {
        assert(p + a =~= a);
        assert(p + b =~= b);
        assert(p + (seq![c] + a) =~= seq![c] + a);
        assert(p + (seq![d] + b) =~= seq![d] + b);
    }
}

/// Two arrays are equal under the language's `==` exactly when they have
/// the same length and the items at every index are equal; so arrays that
/// differ at any one index are unequal.
pub proof fn law_array_equality(xs: Rc<Vec<Value>>, ys: Rc<Vec<Value>>)
    ensures
        value_eq(Value::Array(xs), Value::Array(ys)) <==> (xs@.len() == ys@.len() && forall|i: int|
            0 <= i < xs@.len() ==> value_eq(#[trigger] xs@[i], ys@[i])),
        forall|i: int|
            0 <= i < xs@.len() && i < ys@.len() && !value_eq(#[trigger] xs@[i], ys@[i])
                ==> !value_eq(Value::Array(xs), Value::Array(ys)),
{
}

/// Compare two strings lexicographically.
pub fn compare_strings(a: &String, b: &String) -> (r: Order)
    ensures
        r == lex_order(a@, b@),
{
    let x = chars_of(a.as_str());
    let y = chars_of(b.as_str());
    assert(x@.skip(0) =~= x@);
    assert(y@.skip(0) =~= y@);
    let mut i: usize = 0;
    while i < x.len() && i < y.len() && (x[i] as u32) == (y[i] as u32)
        invariant
            i <= x@.len(),
            i <= y@.len(),
            lex_order(a@, b@) == lex_order(x@.skip(i as int), y@.skip(i as int)),
            x@ == a@,
            y@ == b@,
        decreases x@.len() - i,
    {
        proof {
            assert(x@.skip(i as int).drop_first() =~= x@.skip(i as int + 1));
            assert(y@.skip(i as int).drop_first() =~= y@.skip(i as int + 1));
        }
        i = i + 1;
    }
    let ghost xs = x@.skip(i as int);
    let ghost ys = y@.skip(i as int);
    assert(xs.len() == x@.len() - i);
    assert(i < x@.len() ==> xs[0] == x@[i as int]);
    assert(i < y@.len() ==> ys[0] == y@[i as int]);
    if i == x.len() {
        if i == y.len() {
            Order::Equal
        } else {
            Order::Less
        }
    } else if i == y.len() {
        Order::Greater
    } else if (x[i] as u32) < (y[i] as u32) {
        Order::Less
    } else {
        Order::Greater
    }
}

/// The language's `==`: total and strict. Values of different types are
/// never equal; numbers compare as doubles, strings by their characters,
/// arrays element by element, maps as mappings (insertion order does not
/// matter), functions by identity.
pub open spec fn value_eq(a: Value, b: Value) -> bool
    decreases a,
    via value_eq_decreases
{
    match (a, b) {
        (Value::Number(x), Value::Number(y)) => num_eq(x, y),
        (Value::Bool(x), Value::Bool(y)) => x == y,
        (Value::Str(x), Value::Str(y)) => x@ == y@,
        (Value::Array(xs), Value::Array(ys)) => {
            &&& xs@.len() == ys@.len()
            &&& forall|i: int| 0 <= i < xs@.len() ==> value_eq(#[trigger] xs@[i], ys@[i])
        },
        (Value::Dict(m), Value::Dict(n)) => {
            &&& m@.len() == n@.len()
            &&& forall|i: int|
                0 <= i < m@.len() ==> match map_get(n@, #[trigger] m@[i].0) {
                    Some(w) => value_eq(m@[i].1, w),
                    None => false,
                }
        },
        (Value::Function(f), Value::Function(g)) => f.id == g.id,
        (Value::Builtin(x), Value::Builtin(y)) => x == y,
        _ => false,
    }
}

#[via_fn]
proof fn value_eq_decreases(a: Value, b: Value) {
    match (a, b) {
        (Value::Array(xs), Value::Array(ys)) => {
            assert forall|i: int| 0 <= i < xs@.len() implies decreases_to!(a => xs@[i]) by {}
        },
        (Value::Dict(m), Value::Dict(n)) => {
            assert forall|i: int| 0 <= i < m@.len() implies decreases_to!(a => m@[i].1) by {
                m.lemma_entry_decreases(i);
            }
        },
        _ => {},
    }
}

/// The items of an array are structurally smaller than the array.
proof fn lemma_item_decreases(a: Value, i: int)
    requires
        a is Array,
        0 <= i < a->Array_0@.len(),
    ensures
        decreases_to!(a => a->Array_0@[i]),
{
    let xs = a->Array_0;
    assert(decreases_to!(a => xs));
    let v: Vec<Value> = *xs;
    assert(decreases_to!(v => v@));
    assert(decreases_to!(v@ => v@[i]));
}

/// The values stored in a map are structurally smaller than the map.
proof fn lemma_entry_value_decreases(a: Value, i: int)
    requires
        a is Dict,
        0 <= i < a->Dict_0@.len(),
    ensures
        decreases_to!(a => a->Dict_0@[i].1),
{
    let m = a->Dict_0;
    assert(decreases_to!(a => m));
    let p: PlayMap<Value> = *m;
    p.lemma_entry_decreases(i);
}

/// Evaluates the language's `==`.
pub fn values_equal(a: &Value, b: &Value) -> (r: bool)
    ensures
        r == value_eq(*a, *b),
    decreases a,
{
    match a {
        Value::Number(x) => match b {
            Value::Number(y) => numbers_equal(*x, *y),
            _ => false,
        },
        Value::Bool(x) => match b {
            Value::Bool(y) => *x == *y,
            _ => false,
        },
        Value::Str(x) => match b {
            Value::Str(y) => String::eq(x, y),
            _ => false,
        },
        Value::Array(xs) => match b {
            Value::Array(ys) => {
                if xs.len() != ys.len() {
                    return false;
                }
                let mut i: usize = 0;
                while i < xs.len()
                    invariant
                        *a == Value::Array(*xs),
                        *b == Value::Array(*ys),
                        i <= xs@.len(),
                        xs@.len() == ys@.len(),
                        forall|j: int| 0 <= j < i ==> value_eq(#[trigger] xs@[j], ys@[j]),
                    decreases xs@.len() - i,
                {
                    proof {
                        lemma_item_decreases(*a, i as int);
                    }
                    if !values_equal(&xs[i], &ys[i]) {
                        assert(!value_eq(xs@[i as int], ys@[i as int]));
                        return false;
                    }
                    i = i + 1;
                }
                true
            },
            _ => false,
        },
        Value::Dict(m) => match b {
            Value::Dict(n) => {
                if m.len() != n.len() {
                    return false;
                }
                let mut i: usize = 0;
                while i < m.len()
                    invariant
                        *a == Value::Dict(*m),
                        *b == Value::Dict(*n),
                        i <= m@.len(),
                        m@.len() == n@.len(),
                        forall|j: int|
                            0 <= j < i ==> match map_get(n@, #[trigger] m@[j].0) {
                                Some(w) => value_eq(m@[j].1, w),
                                None => false,
                            },
                    decreases m@.len() - i,
                {
                    let (k, v) = m.entry(i);
                    proof {
                        lemma_entry_value_decreases(*a, i as int);
                    }
                    match n.get(k) {
                        Some(w) => {
                            if !values_equal(v, w) {
                                assert(!(match map_get(n@, m@[i as int].0) {
                                    Some(w) => value_eq(m@[i as int].1, w),
                                    None => false,
                                }));
                                return false;
                            }
                        },
                        None => {
                            assert(map_get(n@, m@[i as int].0) is None);
                            return false;
                        },
                    }
                    i = i + 1;
                }
                true
            },
            _ => false,
        },
        Value::Function(f) => match b {
            Value::Function(g) => f.id == g.id,
            _ => false,
        },
        Value::Builtin(x) => match b {
            Value::Builtin(y) => *x == *y,
            _ => false,
        },
    }
}

impl PartialEq for Value {
    fn eq(&self, other: &Value) -> (r: bool) {
        values_equal(self, other)
    }
}

impl vstd::std_specs::cmp::PartialEqSpecImpl for Value {
    open spec fn obeys_eq_spec() -> bool {
        true
    }

    open spec fn eq_spec(&self, other: &Value) -> bool {
        value_eq(*self, *other)
    }
}

/// `a` and `b` hold the same contents: arrays item by item and maps entry
/// by entry (the same keys in the same order), whether or not they share
/// their storage; any other values are equal.
pub open spec fn same_value(a: Value, b: Value) -> bool
    decreases a,
    via same_value_decreases
{
    match (a, b) {
        (Value::Array(xs), Value::Array(ys)) => xs@.len() == ys@.len() && forall|i: int|
            0 <= i < xs@.len() ==> same_value(#[trigger] xs@[i], ys@[i]),
        (Value::Dict(m), Value::Dict(n)) => m@.len() == n@.len() && forall|i: int|
            0 <= i < m@.len() ==> (#[trigger] m@[i]).0 == n@[i].0 && same_value(m@[i].1, n@[i].1),
        _ => a == b,
    }
}

#[via_fn]
proof fn same_value_decreases(a: Value, b: Value) {
    match (a, b) {
        (Value::Array(xs), Value::Array(ys)) => {
            assert forall|i: int| 0 <= i < xs@.len() implies decreases_to!(a => xs@[i]) by {
                lemma_item_decreases(a, i);
            }
        },
        (Value::Dict(m), Value::Dict(n)) => {
            assert forall|i: int| 0 <= i < m@.len() implies decreases_to!(a => m@[i].1) by {
                lemma_entry_value_decreases(a, i);
            }
        },
        _ => {},
    }
}

/// A copy of `v` that shares no array or map with it, at any depth
/// (functions, which never change, stay shared).
pub fn detached(v: &Value) -> (r: Value)
    ensures
        same_value(r, *v),
    decreases v,
{
    match v {
        Value::Array(items) => {
            let mut out: Vec<Value> = Vec::new();
            let mut i: usize = 0;
            while i < items.len()
                invariant
                    *v == Value::Array(*items),
                    i <= items@.len(),
                    out@.len() == i,
                    forall|j: int| 0 <= j < i ==> same_value(#[trigger] out@[j], items@[j]),
                decreases items@.len() - i,
            {
                proof {
                    lemma_item_decreases(*v, i as int);
                }
                let x = detached(&items[i]);
                out.push(x);
                i = i + 1;
            }
            Value::Array(Rc::new(out))
        },
        Value::Dict(m) => {
            let n = m.len();
            if n >= usize::MAX / 16 {
                proof {
                    lemma_same_value_reflexive(*v);
                }
                return v.clone();
            }
            let mut out: PlayMap<Value> = PlayMap::new();
            let mut i: usize = 0;
            while i < n
                invariant
                    *v == Value::Dict(*m),
                    n == m@.len(),
                    n < usize::MAX / 16,
                    distinct_keys(m@),
                    i <= n,
                    out@.len() == i,
                    forall|j: int|
                        0 <= j < i ==> (#[trigger] out@[j]).0 == m@[j].0 && same_value(
                            out@[j].1,
                            m@[j].1,
                        ),
                decreases n - i,
            {
                let (k, x) = m.entry(i);
                proof {
                    lemma_entry_value_decreases(*v, i as int);
                }
                let y = detached(x);
                let ghost before = out@;
                proof {
                    if has_key(before, k@) {
                        let p = choose|p: int| 0 <= p < before.len() && key_eq(#[trigger] before[p].0, k@);
                        assert(key_eq(m@[p].0, m@[i as int].0));
                    }
                }
                out.insert(k.clone(), y);
                assert(out@ == before.push((k@, y)));
                i = i + 1;
            }
            Value::Dict(Rc::new(out))
        },
        other => {
            proof {
                lemma_same_value_reflexive(*v);
            }
            other.clone()
        },
    }
}

/// Every value holds the same contents as itself.
pub proof fn lemma_same_value_reflexive(v: Value)
    ensures
        same_value(v, v),
    decreases v,
{
    match v {
        Value::Array(xs) => {
            assert forall|i: int| 0 <= i < xs@.len() implies same_value(#[trigger] xs@[i], xs@[i]) by {
                lemma_item_decreases(v, i);
                lemma_same_value_reflexive(xs@[i]);
            }
        },
        Value::Dict(m) => {
            assert forall|i: int| 0 <= i < m@.len() implies (#[trigger] m@[i]).0 == m@[i].0
                && same_value(m@[i].1, m@[i].1) by {
                lemma_entry_value_decreases(v, i);
                lemma_same_value_reflexive(m@[i].1);
            }
        },
        _ => {},
    }
}

} // verus!
