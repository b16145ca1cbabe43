//! The pluggable consumer of (path, value) pairs, and three writers that
//! format them: Gron-style statements, JSON Pointer lines, and one JSON
//! object per line.

use vstd::prelude::*;
use vstd::string::StringExecFns;

verus! {

use crate::escape::{pointer_escape, pointer_escaped};
use crate::value::{
    format_decimal,
    is_terminal,
    json_quote,
    json_quoted,
    push_char,
    render_value,
    spec_decimal,
    spec_render,
    Value,
};
use crate::ident::spec_is_identifier;
use crate::{
    classify_key,
    is_root_shape,
    jindex,
    preorder,
    JindexError,
    PathComponent,
    PathSeg,
    PathValue,
    SinkError,
};

/// `jindex` calls this trait's `handle_pathvalue` method exactly once for
/// each `PathValue` in the given JSON document, in visiting order.  What a
/// sink does with the pairs is its own choice: the writers here format
/// them into a buffer, but a sink may collect, filter or discard them.
///
/// A sink carries three specification views: `wf`, the well-formedness it
/// maintains across calls; `received`, the pairs it has consumed so far;
/// and `config`, whatever of its setup must not drift while a traversal
/// runs.  A sink whose configuration satisfies `may_fail` may refuse a
/// pair and abort the traversal; one that does not is obliged to succeed.
pub trait PathValueSink: Sized {
    /// The part of the sink's setup that `handle_pathvalue` must keep.
    type Config;

    spec fn config(&self) -> Self::Config;

    spec fn wf(&self) -> bool;

    spec fn received(&self) -> Seq<(Seq<PathSeg>, Value)>;

    /// Whether a sink with this configuration may ever refuse a pair.
    spec fn may_fail(config: Self::Config) -> bool;

    fn handle_pathvalue(&mut self, pathvalue: &PathValue<'_>) -> (r: Result<(), SinkError>)
        requires
            old(self).wf(),
        ensures
            final(self).wf(),
            final(self).config() == old(self).config(),
            r is Ok ==> final(self).received() == old(self).received().push(pathvalue@),
            r is Err ==> final(self).received() == old(self).received() && Self::may_fail(
                old(self).config(),
            ),
    ;
}

/// Whether a pair is surfaced by a writer: under "only scalars" the value
/// must be terminal, and the root's empty path is never surfaced.
pub open spec fn keeps(pair: (Seq<PathSeg>, Value), only_scalars: bool) -> bool {
    (only_scalars ==> is_terminal(pair.1)) && pair.0.len() != 0
}

/// Whether a value counts as a scalar for the "only scalars" filter:
/// exactly the terminal nodes.
fn is_scalar(value: &Value) -> (r: bool)
    ensures
        r == is_terminal(*value),
{
    match value {
        Value::Str(_) => true,
        Value::Number(_) => true,
        Value::Bool(_) => true,
        Value::Null => true,
        Value::Array(elements) => elements.len() == 0,
        Value::Object(entries) => entries.len() == 0,
    }
}

// ------------------------------------------------------------------
// Gron-style output
// ------------------------------------------------------------------

/// One Gron path step: `.key` for an identifier key, `["key"]` for any
/// other key (the key text itself unescaped), `[index]` for an index.
pub open spec fn gron_component(c: PathSeg) -> Seq<char> {
    match c {
        PathSeg::Identifier(k) => seq!['.'] + k,
        PathSeg::NonIdentifier(k) => "[\""@ + k + "\"]"@,
        PathSeg::Index(i) => seq!['['] + spec_decimal(i) + seq![']'],
    }
}

/// A whole Gron path, steps in order.
pub open spec fn gron_path(p: Seq<PathSeg>) -> Seq<char>
    decreases p.len(),
{
    if p.len() == 0 {
        Seq::empty()
    } else {
        gron_path(p.drop_last()) + gron_component(p.last())
    }
}

/// How a Gron statement renders a value: a non-empty array or object is
/// only a placeholder, anything else its canonical JSON text.
pub open spec fn gron_value(v: Value) -> Seq<char> {
    match v {
        Value::Array(_) => "[]"@,
        Value::Object(_) => "{}"@,
        _ => spec_render(v),
    }
}

/// One Gron statement.
pub open spec fn gron_line(pair: (Seq<PathSeg>, Value)) -> Seq<char> {
    "json"@ + gron_path(pair.0) + " = "@ + gron_value(pair.1) + ";\n"@
}

/// The Gron statements for the surfaced pairs, in order.
pub open spec fn gron_output(pairs: Seq<(Seq<PathSeg>, Value)>, only_scalars: bool) -> Seq<char>
    decreases pairs.len(),
{
    if pairs.len() == 0 {
        Seq::empty()
    } else {
        gron_output(pairs.drop_last(), only_scalars) + if keeps(pairs.last(), only_scalars) {
            gron_line(pairs.last())
        } else {
            Seq::empty()
        }
    }
}

proof fn lemma_gron_path_take(p: Seq<PathSeg>, i: int)
    requires
        0 <= i < p.len(),
    ensures
        gron_path(p.take(i + 1)) == gron_path(p.take(i)) + gron_component(p[i]),
{
    assert(p.take(i + 1).drop_last() =~= p.take(i));
    assert(p.take(i + 1).last() == p[i]);
}

proof fn lemma_gron_output_push(
    pairs: Seq<(Seq<PathSeg>, Value)>,
    pair: (Seq<PathSeg>, Value),
    only_scalars: bool,
)
    ensures
        gron_output(pairs.push(pair), only_scalars) == gron_output(pairs, only_scalars) + if keeps(
            pair,
            only_scalars,
        ) {
            gron_line(pair)
        } else {
            Seq::<char>::empty()
        },
{
    assert(pairs.push(pair).drop_last() =~= pairs);
    assert(pairs.push(pair).last() == pair);
}

/// Format the Gron path of a pair, `json` prefix included, with its value.
fn format_gron_line(pathvalue: &PathValue<'_>) -> (r: String)
    ensures
        r@ == gron_line(pathvalue@),
{
    let mut out = "json".to_owned();
    let ghost p = pathvalue@.0;
    let n = pathvalue.path_components.len();
    let mut i: usize = 0;
    while i < n
        invariant
            n == pathvalue.path_components@.len(),
            p == pathvalue@.0,
            i <= n,
            p.len() == n,
            out@ == "json"@ + gron_path(p.take(i as int)),
        decreases n - i,
    {
        let ghost out0 = out@;
        let component = pathvalue.path_components[i];
        proof {
            assert(component@ == p[i as int]);
        }
        match component {
            PathComponent::Identifier(k) => {
                push_char(&mut out, '.');
                out.append(k);
                proof {
                    assert(out@ =~= out0 + gron_component(p[i as int]));
                }
            },
            PathComponent::NonIdentifier(k) => {
                out.append("[\"");
                out.append(k);
                out.append("\"]");
                proof {
                    assert(out@ =~= out0 + gron_component(p[i as int]));
                }
            },
            PathComponent::Index(idx) => {
                push_char(&mut out, '[');
                let digits = format_decimal(idx);
                out.append(digits.as_str());
                push_char(&mut out, ']');
                proof {
                    assert(out@ =~= out0 + gron_component(p[i as int]));
                }
            },
        }
        proof {
            lemma_gron_path_take(p, i as int);
        }
        i = i + 1;
    }
    proof {
        assert(p.take(n as int) =~= p);
    }
    out.append(" = ");
    let rendered = match pathvalue.value {
        Value::Array(_) => "[]".to_owned(),
        Value::Object(_) => "{}".to_owned(),
        _ => render_value(pathvalue.value),
    };
    out.append(rendered.as_str());
    out.append(";\n");
    proof {
        assert(out@ =~= gron_line(pathvalue@));
    }
    out
}

/// Options for [`GronWriter`].
#[derive(Debug)]
pub struct GronWriterOptions {
    pub only_scalars: bool,
}

impl Default for GronWriterOptions {
    fn default() -> (r: Self)
        ensures
            r.only_scalars == true,
    {
        Self { only_scalars: true }
    }
}

/// Format `PathValue`s as Gron-style statements into an internal buffer.
pub struct GronWriter {
    out: String,
    options: GronWriterOptions,
    received: Ghost<Seq<(Seq<PathSeg>, Value)>>,
}

impl GronWriter {
    pub fn new(options: GronWriterOptions) -> (r: Self)
        ensures
            r.wf(),
            r.received() == Seq::<(Seq<PathSeg>, Value)>::empty(),
            r.config() == options.only_scalars,
    {
        let r = Self { out: String::new(), options, received: Ghost(Seq::empty()) };
        proof {
            assert(r.out@ =~= gron_output(r.received@, r.options.only_scalars));
        }
        r
    }

    /// The formatted text for every pair received so far.
    pub fn into_string(self) -> (r: String)
        requires
            self.wf(),
        ensures
            r@ == gron_output(self.received(), self.config()),
    {
        self.out
    }
}

impl PathValueSink for GronWriter {
    type Config = bool;

    closed spec fn config(&self) -> bool {
        self.options.only_scalars
    }

    closed spec fn wf(&self) -> bool {
        self.out@ == gron_output(self.received@, self.options.only_scalars)
    }

    closed spec fn received(&self) -> Seq<(Seq<PathSeg>, Value)> {
        self.received@
    }

    closed spec fn may_fail(config: bool) -> bool {
        false
    }

    fn handle_pathvalue(&mut self, pathvalue: &PathValue<'_>) -> (r: Result<(), SinkError>) {
        let should_write = if self.options.only_scalars {
            is_scalar(pathvalue.value)
        } else {
            true
        };
        let should_write = should_write && pathvalue.path_components.len() > 0;
        proof {
            assert(pathvalue@.0.len() == pathvalue.path_components@.len());
            assert(should_write == keeps(pathvalue@, self.options.only_scalars));
            lemma_gron_output_push(self.received@, pathvalue@, self.options.only_scalars);
        }
        if should_write {
            let line = format_gron_line(pathvalue);
            self.out.append(line.as_str());
        } else {
            proof {
                assert(self.out@ + Seq::<char>::empty() =~= self.out@);
            }
        }
        self.received = Ghost(self.received@.push(pathvalue@));
        Ok(())
    }
}

// ------------------------------------------------------------------
// JSON Pointer output
// ------------------------------------------------------------------

/// One JSON Pointer step: a slash, then the escaped key or the decimal
/// index.
pub open spec fn pointer_component(c: PathSeg) -> Seq<char> {
    match c {
        PathSeg::Identifier(k) => seq!['/'] + pointer_escaped(k),
        PathSeg::NonIdentifier(k) => seq!['/'] + pointer_escaped(k),
        PathSeg::Index(i) => seq!['/'] + spec_decimal(i),
    }
}

/// A whole JSON Pointer, steps in order.
pub open spec fn pointer_path(p: Seq<PathSeg>) -> Seq<char>
    decreases p.len(),
{
    if p.len() == 0 {
        Seq::empty()
    } else {
        pointer_path(p.drop_last()) + pointer_component(p.last())
    }
}

/// One JSON Pointer line: pointer, separator, canonical value text.
pub open spec fn pointer_line(pair: (Seq<PathSeg>, Value), separator: Seq<char>) -> Seq<char> {
    pointer_path(pair.0) + separator + spec_render(pair.1) + seq!['\n']
}

/// The JSON Pointer lines for the surfaced pairs, in order.
pub open spec fn pointer_output(
    pairs: Seq<(Seq<PathSeg>, Value)>,
    only_scalars: bool,
    separator: Seq<char>,
) -> Seq<char>
    decreases pairs.len(),
{
    if pairs.len() == 0 {
        Seq::empty()
    } else {
        pointer_output(pairs.drop_last(), only_scalars, separator) + if keeps(
            pairs.last(),
            only_scalars,
        ) {
            pointer_line(pairs.last(), separator)
        } else {
            Seq::empty()
        }
    }
}

proof fn lemma_pointer_path_take(p: Seq<PathSeg>, i: int)
    requires
        0 <= i < p.len(),
    ensures
        pointer_path(p.take(i + 1)) == pointer_path(p.take(i)) + pointer_component(p[i]),
{
    assert(p.take(i + 1).drop_last() =~= p.take(i));
    assert(p.take(i + 1).last() == p[i]);
}

proof fn lemma_pointer_output_push(
    pairs: Seq<(Seq<PathSeg>, Value)>,
    pair: (Seq<PathSeg>, Value),
    only_scalars: bool,
    separator: Seq<char>,
)
    ensures
        pointer_output(pairs.push(pair), only_scalars, separator) == pointer_output(
            pairs,
            only_scalars,
            separator,
        ) + if keeps(pair, only_scalars) {
            pointer_line(pair, separator)
        } else {
            Seq::<char>::empty()
        },
{
    assert(pairs.push(pair).drop_last() =~= pairs);
    assert(pairs.push(pair).last() == pair);
}

/// Format one JSON Pointer line for a pair.
fn format_pointer_line(pathvalue: &PathValue<'_>, separator: &str) -> (r: String)
    ensures
        r@ == pointer_line(pathvalue@, separator@),
{
    let mut out = String::new();
    let ghost p = pathvalue@.0;
    let n = pathvalue.path_components.len();
    let mut i: usize = 0;
    while i < n
        invariant
            n == pathvalue.path_components@.len(),
            p == pathvalue@.0,
            i <= n,
            p.len() == n,
            out@ == pointer_path(p.take(i as int)),
        decreases n - i,
    {
        let ghost out0 = out@;
        let component = pathvalue.path_components[i];
        proof {
            assert(component@ == p[i as int]);
        }
        push_char(&mut out, '/');
        match component {
            PathComponent::Identifier(k) => {
                let escaped = pointer_escape(k);
                out.append(escaped.as_str());
                proof {
                    assert(out@ =~= out0 + pointer_component(p[i as int]));
                }
            },
            PathComponent::NonIdentifier(k) => {
                let escaped = pointer_escape(k);
                out.append(escaped.as_str());
                proof {
                    assert(out@ =~= out0 + pointer_component(p[i as int]));
                }
            },
            PathComponent::Index(idx) => {
                let digits = format_decimal(idx);
                out.append(digits.as_str());
                proof {
                    assert(out@ =~= out0 + pointer_component(p[i as int]));
                }
            },
        }
        proof {
            lemma_pointer_path_take(p, i as int);
        }
        i = i + 1;
    }
    proof {
        assert(p.take(n as int) =~= p);
    }
    out.append(separator);
    let rendered = render_value(pathvalue.value);
    out.append(rendered.as_str());
    push_char(&mut out, '\n');
    proof {
        assert(out@ =~= pointer_line(pathvalue@, separator@));
    }
    out
}

/// Options for [`JSONPointerWriter`].
#[derive(Debug)]
pub struct JSONPointerWriterOptions<'options> {
    pub only_scalars: bool,
    pub separator: &'options str,
}

impl Default for JSONPointerWriterOptions<'_> {
    fn default() -> (r: Self)
        ensures
            r.only_scalars == true,
            r.separator@ == "\t"@,
    {
        Self { only_scalars: true, separator: "\t" }
    }
}

/// Format `PathValue`s as JSON Pointer lines into an internal buffer.
pub struct JSONPointerWriter<'writer> {
    out: String,
    options: JSONPointerWriterOptions<'writer>,
    received: Ghost<Seq<(Seq<PathSeg>, Value)>>,
}

impl<'writer> JSONPointerWriter<'writer> {
    pub fn new(options: JSONPointerWriterOptions<'writer>) -> (r: Self)
        ensures
            r.wf(),
            r.received() == Seq::<(Seq<PathSeg>, Value)>::empty(),
            r.config() == (options.only_scalars, options.separator@),
    {
        let r = Self { out: String::new(), options, received: Ghost(Seq::empty()) };
        proof {
            assert(r.out@ =~= pointer_output(
                r.received@,
                r.options.only_scalars,
                r.options.separator@,
            ));
        }
        r
    }

    /// The formatted text for every pair received so far.
    pub fn into_string(self) -> (r: String)
        requires
            self.wf(),
        ensures
            r@ == pointer_output(self.received(), self.config().0, self.config().1),
    {
        self.out
    }
}

impl<'writer> PathValueSink for JSONPointerWriter<'writer> {
    type Config = (bool, Seq<char>);

    closed spec fn config(&self) -> (bool, Seq<char>) {
        (self.options.only_scalars, self.options.separator@)
    }

    closed spec fn wf(&self) -> bool {
        self.out@ == pointer_output(self.received@, self.options.only_scalars, self.options.separator@)
    }

    closed spec fn received(&self) -> Seq<(Seq<PathSeg>, Value)> {
        self.received@
    }

    closed spec fn may_fail(config: (bool, Seq<char>)) -> bool {
        false
    }

    fn handle_pathvalue(&mut self, pathvalue: &PathValue<'_>) -> (r: Result<(), SinkError>) {
        let should_write = if self.options.only_scalars {
            is_scalar(pathvalue.value)
        } else {
            true
        };
        let should_write = should_write && pathvalue.path_components.len() > 0;
        proof {
            assert(pathvalue@.0.len() == pathvalue.path_components@.len());
            assert(should_write == keeps(pathvalue@, self.options.only_scalars));
            lemma_pointer_output_push(
                self.received@,
                pathvalue@,
                self.options.only_scalars,
                self.options.separator@,
            );
        }
        if should_write {
            let line = format_pointer_line(pathvalue, self.options.separator);
            self.out.append(line.as_str());
        } else {
            proof {
                assert(self.out@ + Seq::<char>::empty() =~= self.out@);
            }
        }
        self.received = Ghost(self.received@.push(pathvalue@));
        Ok(())
    }
}

// ------------------------------------------------------------------
// Structured JSON output
// ------------------------------------------------------------------

/// One element of the `path_components` array: a JSON string for a key,
/// decimal digits for an index.
pub open spec fn json_path_element(c: PathSeg) -> Seq<char> {
    match c {
        PathSeg::Identifier(k) => json_quoted(k),
        PathSeg::NonIdentifier(k) => json_quoted(k),
        PathSeg::Index(i) => spec_decimal(i),
    }
}

/// The comma-separated `path_components` array contents.
pub open spec fn json_path(p: Seq<PathSeg>) -> Seq<char>
    decreases p.len(),
{
    if p.len() == 0 {
        Seq::empty()
    } else if p.len() == 1 {
        json_path_element(p[0])
    } else {
        json_path(p.drop_last()) + seq![','] + json_path_element(p.last())
    }
}

/// One structured line: a JSON object with the path and the value.
pub open spec fn json_line(pair: (Seq<PathSeg>, Value)) -> Seq<char> {
    "{\"path_components\":["@ + json_path(pair.0) + "],\"value\":"@ + spec_render(pair.1) + "}\n"@
}

/// The structured lines for the surfaced pairs, in order.
pub open spec fn json_output(pairs: Seq<(Seq<PathSeg>, Value)>, only_scalars: bool) -> Seq<char>
    decreases pairs.len(),
{
    if pairs.len() == 0 {
        Seq::empty()
    } else {
        json_output(pairs.drop_last(), only_scalars) + if keeps(pairs.last(), only_scalars) {
            json_line(pairs.last())
        } else {
            Seq::empty()
        }
    }
}

proof fn lemma_json_path_take(p: Seq<PathSeg>, i: int)
    requires
        0 < i < p.len(),
    ensures
        json_path(p.take(i + 1)) == json_path(p.take(i)) + seq![','] + json_path_element(p[i]),
{
    assert(p.take(i + 1).drop_last() =~= p.take(i));
    assert(p.take(i + 1).last() == p[i]);
}

proof fn lemma_json_output_push(
    pairs: Seq<(Seq<PathSeg>, Value)>,
    pair: (Seq<PathSeg>, Value),
    only_scalars: bool,
)
    ensures
        json_output(pairs.push(pair), only_scalars) == json_output(pairs, only_scalars) + if keeps(
            pair,
            only_scalars,
        ) {
            json_line(pair)
        } else {
            Seq::<char>::empty()
        },
{
    assert(pairs.push(pair).drop_last() =~= pairs);
    assert(pairs.push(pair).last() == pair);
}

/// Format one structured JSON line for a pair.
fn format_json_line(pathvalue: &PathValue<'_>) -> (r: String)
    ensures
        r@ == json_line(pathvalue@),
{
    let mut out = "{\"path_components\":[".to_owned();
    let ghost p = pathvalue@.0;
    let n = pathvalue.path_components.len();
    let mut i: usize = 0;
    while i < n
        invariant
            n == pathvalue.path_components@.len(),
            p == pathvalue@.0,
            i <= n,
            p.len() == n,
            out@ == "{\"path_components\":["@ + json_path(p.take(i as int)),
        decreases n - i,
    {
        let ghost out0 = out@;
        if i > 0 {
            push_char(&mut out, ',');
        }
        let component = pathvalue.path_components[i];
        proof {
            assert(component@ == p[i as int]);
        }
        match component {
            PathComponent::Identifier(k) => {
                let quoted = json_quote(k);
                out.append(quoted.as_str());
            },
            PathComponent::NonIdentifier(k) => {
                let quoted = json_quote(k);
                out.append(quoted.as_str());
            },
            PathComponent::Index(idx) => {
                let digits = format_decimal(idx);
                out.append(digits.as_str());
            },
        }
        proof {
            if i == 0 {
                assert(p.take(1) =~= seq![p[0]]);
                assert(out@ =~= out0 + json_path_element(p[0]));
                assert(json_path(p.take(1)) == json_path_element(p[0]));
            } else {
                lemma_json_path_take(p, i as int);
                assert(out@ =~= out0 + seq![','] + json_path_element(p[i as int]));
            }
        }
        i = i + 1;
    }
    proof {
        assert(p.take(n as int) =~= p);
    }
    out.append("],\"value\":");
    let rendered = render_value(pathvalue.value);
    out.append(rendered.as_str());
    out.append("}\n");
    proof {
        assert(out@ =~= json_line(pathvalue@));
    }
    out
}

/// Options for [`JSONWriter`].
#[derive(Debug)]
pub struct JsonWriterOptions {
    pub only_scalars: bool,
}

impl Default for JsonWriterOptions {
    fn default() -> (r: Self)
        ensures
            r.only_scalars == true,
    {
        Self { only_scalars: true }
    }
}

/// Format `PathValue`s as one JSON object per line, like
/// `{"path_components":["some","paths"],"value":"foo"}`, into an internal
/// buffer.
pub struct JSONWriter {
    out: String,
    options: JsonWriterOptions,
    received: Ghost<Seq<(Seq<PathSeg>, Value)>>,
}

impl JSONWriter {
    pub fn new(options: JsonWriterOptions) -> (r: Self)
        ensures
            r.wf(),
            r.received() == Seq::<(Seq<PathSeg>, Value)>::empty(),
            r.config() == options.only_scalars,
    {
        let r = Self { out: String::new(), options, received: Ghost(Seq::empty()) };
        proof {
            assert(r.out@ =~= json_output(r.received@, r.options.only_scalars));
        }
        r
    }

    /// The formatted text for every pair received so far.
    pub fn into_string(self) -> (r: String)
        requires
            self.wf(),
        ensures
            r@ == json_output(self.received(), self.config()),
    {
        self.out
    }
}

impl PathValueSink for JSONWriter {
    type Config = bool;

    closed spec fn config(&self) -> bool {
        self.options.only_scalars
    }

    closed spec fn wf(&self) -> bool {
        self.out@ == json_output(self.received@, self.options.only_scalars)
    }

    closed spec fn received(&self) -> Seq<(Seq<PathSeg>, Value)> {
        self.received@
    }

    closed spec fn may_fail(config: bool) -> bool {
        false
    }

    fn handle_pathvalue(&mut self, pathvalue: &PathValue<'_>) -> (r: Result<(), SinkError>) {
        let should_write = if self.options.only_scalars {
            is_scalar(pathvalue.value)
        } else {
            true
        };
        let should_write = should_write && pathvalue.path_components.len() > 0;
        proof {
            assert(pathvalue@.0.len() == pathvalue.path_components@.len());
            assert(should_write == keeps(pathvalue@, self.options.only_scalars));
            lemma_json_output_push(self.received@, pathvalue@, self.options.only_scalars);
        }
        if should_write {
            let line = format_json_line(pathvalue);
            self.out.append(line.as_str());
        } else {
            proof {
                assert(self.out@ + Seq::<char>::empty() =~= self.out@);
            }
        }
        self.received = Ghost(self.received@.push(pathvalue@));
        Ok(())
    }
}



/// Traverse a document and return the whole Gron-style text.
///
/// Succeeds exactly when the root is an object or an array; the failure
/// carries the offending root's rendered text.
pub fn gron_to_string(json: &Value, options: GronWriterOptions) -> (r: Result<String, JindexError>)
    ensures
        r is Ok <==> is_root_shape(*json),
        r matches Ok(out) ==> out@ == gron_output(
            preorder(*json, Seq::empty()),
            options.only_scalars,
        ),
        r matches Err(e) ==> e matches JindexError::InvalidRoot(text) && text@ == spec_render(
            *json,
        ),
{
    let mut sink = GronWriter::new(options);
    match jindex(&mut sink, json) {
        Ok(()) => {
            proof {
                assert(sink.received() =~= preorder(*json, Seq::empty()));
            }
            Ok(sink.into_string())
        },
        Err(e) => {
            proof {
                match e {
                    JindexError::Sink(_) => {
                        assert(false);
                    },
                    _ => {},
                }
            }
            Err(e)
        },
    }
}

/// Traverse a document and return the whole JSON Pointer text.
///
/// Succeeds exactly when the root is an object or an array; the failure
/// carries the offending root's rendered text.
pub fn json_pointer_to_string<'a>(json: &Value, options: JSONPointerWriterOptions<'a>) -> (r:
    Result<String, JindexError>)
    ensures
        r is Ok <==> is_root_shape(*json),
        r matches Ok(out) ==> out@ == pointer_output(
            preorder(*json, Seq::empty()),
            options.only_scalars,
            options.separator@,
        ),
        r matches Err(e) ==> e matches JindexError::InvalidRoot(text) && text@ == spec_render(
            *json,
        ),
{
    let mut sink = JSONPointerWriter::new(options);
    match jindex(&mut sink, json) {
        Ok(()) => {
            proof {
                assert(sink.received() =~= preorder(*json, Seq::empty()));
            }
            Ok(sink.into_string())
        },
        Err(e) => {
            proof {
                match e {
                    JindexError::Sink(_) => {
                        assert(false);
                    },
                    _ => {},
                }
            }
            Err(e)
        },
    }
}

/// Traverse a document and return the whole structured-JSON text.
///
/// Succeeds exactly when the root is an object or an array; the failure
/// carries the offending root's rendered text.
pub fn json_lines_to_string(json: &Value, options: JsonWriterOptions) -> (r: Result<
    String,
    JindexError,
>)
    ensures
        r is Ok <==> is_root_shape(*json),
        r matches Ok(out) ==> out@ == json_output(
            preorder(*json, Seq::empty()),
            options.only_scalars,
        ),
        r matches Err(e) ==> e matches JindexError::InvalidRoot(text) && text@ == spec_render(
            *json,
        ),
{
    let mut sink = JSONWriter::new(options);
    match jindex(&mut sink, json) {
        Ok(()) => {
            proof {
                assert(sink.received() =~= preorder(*json, Seq::empty()));
            }
            Ok(sink.into_string())
        },
        Err(e) => {
            proof {
                match e {
                    JindexError::Sink(_) => {
                        assert(false);
                    },
                    _ => {},
                }
            }
            Err(e)
        },
    }
}

/// The zero-length path is never emitted, regardless of mode: a pair
/// whose path is empty leaves each writer's output unchanged.
pub proof fn lemma_root_never_emitted(
    pairs: Seq<(Seq<PathSeg>, Value)>,
    pair: (Seq<PathSeg>, Value),
    only_scalars: bool,
    separator: Seq<char>,
)
    requires
        pair.0.len() == 0,
    ensures
        gron_output(pairs.push(pair), only_scalars) == gron_output(pairs, only_scalars),
        pointer_output(pairs.push(pair), only_scalars, separator) == pointer_output(
            pairs,
            only_scalars,
            separator,
        ),
        json_output(pairs.push(pair), only_scalars) == json_output(pairs, only_scalars),
{
    lemma_gron_output_push(pairs, pair, only_scalars);
    lemma_pointer_output_push(pairs, pair, only_scalars, separator);
    lemma_json_output_push(pairs, pair, only_scalars);
    assert(gron_output(pairs, only_scalars) + Seq::<char>::empty() =~= gron_output(
        pairs,
        only_scalars,
    ));
    assert(pointer_output(pairs, only_scalars, separator) + Seq::<char>::empty() =~= pointer_output(
        pairs,
        only_scalars,
        separator,
    ));
    assert(json_output(pairs, only_scalars) + Seq::<char>::empty() =~= json_output(
        pairs,
        only_scalars,
    ));
}

/// In "only scalars" mode a non-root pair is emitted iff its value is
/// terminal: a terminal pair appends exactly its line, any other pair
/// appends nothing.
pub proof fn lemma_scalar_filter(
    pairs: Seq<(Seq<PathSeg>, Value)>,
    pair: (Seq<PathSeg>, Value),
    separator: Seq<char>,
)
    requires
        pair.0.len() != 0,
    ensures
        is_terminal(pair.1) ==> gron_output(pairs.push(pair), true) == gron_output(pairs, true)
            + gron_line(pair),
        !is_terminal(pair.1) ==> gron_output(pairs.push(pair), true) == gron_output(pairs, true),
        is_terminal(pair.1) ==> pointer_output(pairs.push(pair), true, separator) == pointer_output(
            pairs,
            true,
            separator,
        ) + pointer_line(pair, separator),
        !is_terminal(pair.1) ==> pointer_output(pairs.push(pair), true, separator)
            == pointer_output(pairs, true, separator),
        is_terminal(pair.1) ==> json_output(pairs.push(pair), true) == json_output(pairs, true)
            + json_line(pair),
        !is_terminal(pair.1) ==> json_output(pairs.push(pair), true) == json_output(pairs, true),
{
    lemma_gron_output_push(pairs, pair, true);
    lemma_pointer_output_push(pairs, pair, true, separator);
    lemma_json_output_push(pairs, pair, true);
    if !is_terminal(pair.1) {
        assert(gron_output(pairs, true) + Seq::<char>::empty() =~= gron_output(pairs, true));
        assert(pointer_output(pairs, true, separator) + Seq::<char>::empty() =~= pointer_output(
            pairs,
            true,
            separator,
        ));
        assert(json_output(pairs, true) + Seq::<char>::empty() =~= json_output(pairs, true));
    }
}

/// A key renders as a bare `.key` Gron segment iff it is identifier-like
/// by the Unicode XID rule; every other key renders bracket-quoted, with
/// no further escaping of the key text.
pub proof fn lemma_identifier_rendering(k: Seq<char>)
    ensures
        spec_is_identifier(k) <==> gron_component(classify_key(k)) == seq!['.'] + k,
        !spec_is_identifier(k) ==> gron_component(classify_key(k)) == "[\""@ + k + "\"]"@,
{
    reveal_strlit("[\"");
    reveal_strlit("\"]");
    if !spec_is_identifier(k) {
        let bracketed = "[\""@ + k + "\"]"@;
        let dotted = seq!['.'] + k;
        assert(bracketed[0] == '[');
        assert(dotted[0] == '.');
        if bracketed == dotted {
            assert(bracketed[0] == dotted[0]);
            assert(false);
        }
    }
}

} // verus!
