//! The JSON value tree that the traversal walks, and its canonical
//! compact-text rendering.

use vstd::prelude::*;
use vstd::string::StringExecFns;

verus! {

/// A parsed JSON document.
///
/// A number carries its canonical compact JSON text, so the tree stays a
/// plain data structure; the text is produced by whatever parsed the
/// document.  Object entries keep their insertion order.
pub enum Value {
    Null,
    Bool(bool),
    Number(String),
    Str(String),
    Array(Vec<Value>),
    Object(Vec<(String, Value)>),
}

/// A terminal node renders as a value and is never expanded: null, a bool,
/// a number, a string, an empty array or an empty object.
pub open spec fn is_terminal(v: Value) -> bool {
    match v {
        Value::Array(elements) => elements@.len() == 0,
        Value::Object(entries) => entries@.len() == 0,
        _ => true,
    }
}

impl Value {
    /// Whether this value is an object.
    pub fn is_object(&self) -> (r: bool)
        ensures
            r == (*self is Object),
    {
        match self {
            Value::Object(_) => true,
            _ => false,
        }
    }

    /// Whether this value is an array.
    pub fn is_array(&self) -> (r: bool)
        ensures
            r == (*self is Array),
    {
        match self {
            Value::Array(_) => true,
            _ => false,
        }
    }
}

/// The JSON string literal (opening quote, escaped characters, closing
/// quote) for a sequence of characters.
pub uninterp spec fn json_quoted(s: Seq<char>) -> Seq<char>;

/// Relies on serde_json::to_string on a string slice: it writes the JSON
/// string literal for exactly those characters, escaping per JSON rules,
/// and cannot fail for a string input.
#[verifier::external_body]
pub(crate) fn json_quote(s: &str) -> (r: String)
    ensures
        r@ == json_quoted(s@),
{
    serde_json::to_string(s).unwrap_or_default()
}

/// The character for one decimal digit.
pub open spec fn digit_char(d: nat) -> char {
    if d == 0 {
        '0'
    } else if d == 1 {
        '1'
    } else if d == 2 {
        '2'
    } else if d == 3 {
        '3'
    } else if d == 4 {
        '4'
    } else if d == 5 {
        '5'
    } else if d == 6 {
        '6'
    } else if d == 7 {
        '7'
    } else if d == 8 {
        '8'
    } else {
        '9'
    }
}

/// The decimal digits of a nonnegative integer, most significant first.
pub open spec fn spec_decimal(n: nat) -> Seq<char>
    decreases n,
{
    if n <= 9 {
        seq![digit_char(n)]
    } else {
        spec_decimal(n / 10).push(digit_char(n % 10))
    }
}

/// Relies on itoa::Buffer::format: the decimal digits of the integer.
#[verifier::external_body]
pub(crate) fn format_decimal(i: usize) -> (r: String)
    ensures
        r@ == spec_decimal(i as nat),
{
    let mut buffer = itoa::Buffer::new();
    buffer.format(i).to_owned()
}

/// Relies on String::push: it appends the one character.
#[verifier::external_body]
pub(crate) fn push_char(s: &mut String, c: char)
    ensures
        final(s)@ == old(s)@.push(c),
{
    s.push(c)
}

/// The canonical compact JSON text of a value.
pub open spec fn spec_render(v: Value) -> Seq<char>
    decreases v, 1int, 0int,
{
    match v {
        Value::Null => "null"@,
        Value::Bool(b) => if b {
            "true"@
        } else {
            "false"@
        },
        Value::Number(text) => text@,
        Value::Str(s) => json_quoted(s@),
        Value::Array(elements) => seq!['['] + spec_render_items(elements@, elements@.len() as int)
            + seq![']'],
        Value::Object(entries) => seq!['{'] + spec_render_entries(entries@, entries@.len() as int)
            + seq!['}'],
    }
}

/// The comma-separated rendering of the first `upto` elements of an array.
pub open spec fn spec_render_items(items: Seq<Value>, upto: int) -> Seq<char>
    decreases items, 0int, upto,
{
    if upto <= 0 || upto > items.len() {
        Seq::empty()
    } else if upto == 1 {
        spec_render(items[0])
    } else {
        spec_render_items(items, upto - 1) + seq![','] + spec_render(items[upto - 1])
    }
}

/// The comma-separated rendering of the first `upto` entries of an object.
pub open spec fn spec_render_entries(entries: Seq<(String, Value)>, upto: int) -> Seq<char>
    decreases entries, 0int, upto,
{
    if upto <= 0 || upto > entries.len() {
        Seq::empty()
    } else if upto == 1 {
        json_quoted(entries[0].0@) + seq![':'] + spec_render(entries[0].1)
    } else {
        spec_render_entries(entries, upto - 1) + seq![','] + json_quoted(entries[upto - 1].0@)
            + seq![':'] + spec_render(entries[upto - 1].1)
    }
}

/// Render a value as its canonical compact JSON text.
pub fn render_value(v: &Value) -> (r: String)
    ensures
        r@ == spec_render(*v),
    decreases *v,
{
    match v {
        Value::Null => "null".to_owned(),
        Value::Bool(b) => if *b {
            "true".to_owned()
        } else {
            "false".to_owned()
        },
        Value::Number(text) => text.clone(),
        Value::Str(s) => json_quote(s.as_str()),
        Value::Array(elements) => {
            let mut out = String::new();
            push_char(&mut out, '[');
            let n = elements.len();
            let mut i: usize = 0;
            while i < n
                invariant
                    n == elements@.len(),
                    i <= n,
                    v == &Value::Array(*elements),
                    out@ == seq!['['] + spec_render_items(elements@, i as int),
                decreases n - i,
            {
                if i > 0 {
                    push_char(&mut out, ',');
                }
                proof {
                    assert(decreases_to!(*v => v->Array_0));
                    assert(v->Array_0 == *elements);
                    assert(decreases_to!(*elements => elements@));
                    assert(decreases_to!(elements@ => elements@[i as int]));
                }
                let rendered = render_value(&elements[i]);
                out.append(rendered.as_str());
                i = i + 1;
            }
            push_char(&mut out, ']');
            proof {
                assert(out@ =~= spec_render(*v));
            }
            out
        },
        Value::Object(entries) => {
            let mut out = String::new();
            push_char(&mut out, '{');
            let n = entries.len();
            let mut i: usize = 0;
            while i < n
                invariant
                    n == entries@.len(),
                    i <= n,
                    v == &Value::Object(*entries),
                    out@ == seq!['{'] + spec_render_entries(entries@, i as int),
                decreases n - i,
            {
                if i > 0 {
                    push_char(&mut out, ',');
                }
                let quoted = json_quote(entries[i].0.as_str());
                out.append(quoted.as_str());
                push_char(&mut out, ':');
                proof {
                    assert(decreases_to!(*v => v->Object_0));
                    assert(v->Object_0 == *entries);
                    assert(decreases_to!(*entries => entries@));
                    assert(decreases_to!(entries@ => entries@[i as int]));
                    assert(decreases_to!(entries@[i as int] => entries@[i as int].1));
                }
                let rendered = render_value(&entries[i].1);
                out.append(rendered.as_str());
                i = i + 1;
            }
            push_char(&mut out, '}');
            proof {
                assert(out@ =~= spec_render(*v));
            }
            out
        },
    }
}

} // verus!
