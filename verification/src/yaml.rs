//! The YAML documents that a specification file holds: a tree of tagged
//! values, each with the position at which it was read.
use vstd::prelude::*;
use vstd::string::StrSliceExecFns;
use yaml_rust::parser::{Event, MarkedEventReceiver, Parser};
use yaml_rust::scanner::{Marker, TScalarStyle, TokenType};

verus! {

#[derive(Clone, Copy, Default, PartialEq, PartialOrd, Debug, Eq, Ord, Hash, Structural)]
pub struct Position {
    pub line: usize,
    pub column: usize,
}

#[derive(Default, PartialEq, PartialOrd, Debug, Eq, Ord, Hash)]
pub enum YamlData {
    /// Float types are stored as String and parsed on demand.
    Real(String),
    /// YAML int is stored as i64.
    Integer(i64),
    /// YAML scalar.
    String(String),
    /// YAML bool, e.g. `true` or `false`.
    Boolean(bool),
    /// YAML sequence, can be accessed as a `Vec`.
    List(Vec<Yaml>),
    /// YAML map, can be accessed as a `Vec` of key-value pairs.
    ///
    /// Insertion order will match the order of insertion into the map.
    Mapping(Vec<(Yaml, Yaml)>),
    /// Alias, not fully supported yet.
    Alias(usize),
    /// YAML null, e.g. `null` or `~`.
    Null,
    /// Accessing a nonexistent node via the Index trait returns `BadValue`. This
    /// simplifies error handling in the calling code. Invalid type conversion also
    /// returns `BadValue`.
    #[default]
    BadValue,
}

#[derive(Default, PartialEq, PartialOrd, Debug, Eq, Ord, Hash)]
pub struct Yaml {
    pub data: YamlData,
    pub position: Position,
}

/// What a node holds, as a mathematical value.
pub enum Value {
    Real(Seq<char>),
    Integer(i64),
    Text(Seq<char>),
    Boolean(bool),
    List(Seq<Node>),
    Mapping(Seq<(Node, Node)>),
    Alias(usize),
    Null,
    BadValue,
}

/// A node as a mathematical value: what it holds, and where it was read.
pub struct Node {
    pub value: Value,
    pub position: Position,
}

impl View for Yaml {
    type V = Node;

    open spec fn view(&self) -> Node
        decreases self,
    {
        Node { value: self.data@, position: self.position }
    }
}

impl View for YamlData {
    type V = Value;

    open spec fn view(&self) -> Value
        decreases self,
    {
        match self {
            YamlData::Real(s) => Value::Real(s@),
            YamlData::Integer(i) => Value::Integer(*i),
            YamlData::String(s) => Value::Text(s@),
            YamlData::Boolean(b) => Value::Boolean(*b),
            YamlData::List(items) => Value::List(
                Seq::new(
                    items@.len(),
                    |i: int|
                        if 0 <= i < items@.len() {
                            items@[i]@
                        } else {
                            arbitrary()
                        },
                ),
            ),
            YamlData::Mapping(pairs) => Value::Mapping(
                Seq::new(
                    pairs@.len(),
                    |i: int|
                        if 0 <= i < pairs@.len() {
                            (pairs@[i].0@, pairs@[i].1@)
                        } else {
                            arbitrary()
                        },
                ),
            ),
            YamlData::Alias(id) => Value::Alias(*id),
            YamlData::Null => Value::Null,
            YamlData::BadValue => Value::BadValue,
        }
    }
}

/// The nodes of a list of documents or items.
pub open spec fn nodes(items: Seq<Yaml>) -> Seq<Node> {
    Seq::new(items.len(), |i: int| items[i]@)
}

/// The pairs of nodes of a mapping.
pub open spec fn node_pairs(pairs: Seq<(Yaml, Yaml)>) -> Seq<(Node, Node)> {
    Seq::new(pairs.len(), |i: int| (pairs[i].0@, pairs[i].1@))
}

/// The node that stands for a value that is missing.
pub open spec fn bad_node() -> Node {
    Node { value: Value::BadValue, position: Position { line: 0, column: 0 } }
}

pub proof fn lemma_list_view(items: Vec<Yaml>)
    ensures
        YamlData::List(items)@ == Value::List(nodes(items@)),
{
    reveal_with_fuel(<YamlData as View>::view, 2);
    assert(YamlData::List(items)@->List_0 =~= nodes(items@));
}

pub proof fn lemma_mapping_view(pairs: Vec<(Yaml, Yaml)>)
    ensures
        YamlData::Mapping(pairs)@ == Value::Mapping(node_pairs(pairs@)),
{
    reveal_with_fuel(<YamlData as View>::view, 2);
    assert(YamlData::Mapping(pairs)@->Mapping_0 =~= node_pairs(pairs@));
}

/// Compares two texts.
pub fn same_text(a: &str, b: &str) -> (same: bool)
    ensures
        same == (a@ == b@),
{
    a.to_owned() == b.to_owned()
}

impl Yaml {
    pub fn new(data: YamlData, position: Position) -> (yaml: Yaml)
        ensures
            yaml.data == data,
            yaml.position == position,
    {
        Yaml { data, position }
    }

    /// The node for a value that is missing.
    pub fn bad_value() -> (yaml: Yaml)
        ensures
            yaml@ == bad_node(),
    {
        Yaml { data: YamlData::BadValue, position: Position { line: 0, column: 0 } }
    }
}

impl Clone for Yaml {
    fn clone(&self) -> (copy: Yaml)
        ensures
            copy@ == self@,
        decreases self,
    {
        Yaml { data: self.data.clone(), position: self.position }
    }
}

impl Clone for YamlData {
    fn clone(&self) -> (copy: YamlData)
        ensures
            copy@ == self@,
        decreases self,
    {
        match self {
            YamlData::Real(s) => YamlData::Real(s.clone()),
            YamlData::Integer(i) => YamlData::Integer(*i),
            YamlData::String(s) => YamlData::String(s.clone()),
            YamlData::Boolean(b) => YamlData::Boolean(*b),
            YamlData::List(items) => {
                let mut copies: Vec<Yaml> = Vec::new();
                let mut i: usize = 0;
                while i < items.len()
                    invariant
                        i <= items.len(),
                        *self == YamlData::List(*items),
                        copies@.len() == i,
                        forall|k: int| 0 <= k < i ==> (#[trigger] copies@[k])@ == items@[k]@,
                    decreases items.len() - i,
                {
                    proof {
                        assert(self->List_0 == *items);
                        assert(decreases_to!(*self => self->List_0@[i as int]));
                    }
                    copies.push(items[i].clone());
                    i = i + 1;
                }
                proof {
                    lemma_list_view(*items);
                    lemma_list_view(copies);
                    assert(nodes(copies@) =~= nodes(items@));
                }
                YamlData::List(copies)
            },
            YamlData::Mapping(pairs) => {
                let mut copies: Vec<(Yaml, Yaml)> = Vec::new();
                let mut i: usize = 0;
                while i < pairs.len()
                    invariant
                        i <= pairs.len(),
                        *self == YamlData::Mapping(*pairs),
                        copies@.len() == i,
                        forall|k: int|
                            0 <= k < i ==> (#[trigger] copies@[k]).0@ == pairs@[k].0@
                                && copies@[k].1@ == pairs@[k].1@,
                    decreases pairs.len() - i,
                {
                    proof {
                        assert(self->Mapping_0 == *pairs);
                        assert(decreases_to!(*self => self->Mapping_0@[i as int].0));
                        assert(decreases_to!(*self => self->Mapping_0@[i as int].1));
                    }
                    copies.push((pairs[i].0.clone(), pairs[i].1.clone()));
                    i = i + 1;
                }
                proof {
                    lemma_mapping_view(*pairs);
                    lemma_mapping_view(copies);
                    assert(node_pairs(copies@) =~= node_pairs(pairs@));
                }
                YamlData::Mapping(copies)
            },
            YamlData::Alias(id) => YamlData::Alias(*id),
            YamlData::Null => YamlData::Null,
            YamlData::BadValue => YamlData::BadValue,
        }
    }
}

#[verifier::external_type_specification]
#[verifier::external_body]
pub struct ExEvent(Event);

#[verifier::external_type_specification]
#[verifier::external_body]
pub struct ExMarker(Marker);

#[verifier::external_type_specification]
#[verifier::external_body]
pub struct ExTScalarStyle(TScalarStyle);

#[verifier::external_type_specification]
#[verifier::external_body]
pub struct ExTokenType(TokenType);

/// How a scalar was written.
#[derive(Clone, Copy, PartialEq, Eq, Debug, Structural)]
pub enum ScalarStyle {
    Any,
    Plain,
    SingleQuoted,
    DoubleQuoted,
    Literal,
    Folded,
}

/// An event as the parser hands it out, the parts of a scalar not yet looked
/// into.
enum RawEvent {
    Nothing,
    StreamStart,
    StreamEnd,
    DocumentStart,
    DocumentEnd,
    Alias(usize),
    Scalar(String, TScalarStyle, usize, Option<TokenType>),
    SequenceStart(usize),
    SequenceEnd,
    MappingStart(usize),
    MappingEnd,
}

/// An event of the parser: what a document is built from.
#[derive(Debug)]
pub enum YamlEvent {
    /// Reserved for internal use
    Nothing,
    StreamStart,
    StreamEnd,
    DocumentStart,
    DocumentEnd,
    /// Refer to an anchor ID
    Alias(usize),
    /// Value, style, anchor_id, tag as handle and suffix
    Scalar(String, ScalarStyle, usize, Option<(String, String)>),
    /// Anchor ID
    SequenceStart(usize),
    SequenceEnd,
    /// Anchor ID
    MappingStart(usize),
    MappingEnd,
}

/// An event as a mathematical value.
pub enum Signal {
    Nothing,
    StreamStart,
    StreamEnd,
    DocumentStart,
    DocumentEnd,
    Alias(usize),
    Scalar(Seq<char>, ScalarStyle, usize, Option<(Seq<char>, Seq<char>)>),
    SequenceStart(usize),
    SequenceEnd,
    MappingStart(usize),
    MappingEnd,
}

impl View for YamlEvent {
    type V = Signal;

    open spec fn view(&self) -> Signal {
        match self {
            YamlEvent::Nothing => Signal::Nothing,
            YamlEvent::StreamStart => Signal::StreamStart,
            YamlEvent::StreamEnd => Signal::StreamEnd,
            YamlEvent::DocumentStart => Signal::DocumentStart,
            YamlEvent::DocumentEnd => Signal::DocumentEnd,
            YamlEvent::Alias(id) => Signal::Alias(*id),
            YamlEvent::Scalar(text, style, anchor, tag) => Signal::Scalar(
                text@,
                *style,
                *anchor,
                match tag {
                    Some((handle, suffix)) => Some((handle@, suffix@)),
                    None => None,
                },
            ),
            YamlEvent::SequenceStart(anchor) => Signal::SequenceStart(*anchor),
            YamlEvent::SequenceEnd => Signal::SequenceEnd,
            YamlEvent::MappingStart(anchor) => Signal::MappingStart(*anchor),
            YamlEvent::MappingEnd => Signal::MappingEnd,
        }
    }
}

/// Tells the variants of `yaml_rust::parser::Event` apart and moves their
/// fields over. Nothing is claimed of the result.
#[verifier::external_body]
fn unpack_event(ev: Event) -> (raw: RawEvent) {
    match ev {
        Event::Nothing => RawEvent::Nothing,
        Event::StreamStart => RawEvent::StreamStart,
        Event::StreamEnd => RawEvent::StreamEnd,
        Event::DocumentStart => RawEvent::DocumentStart,
        Event::DocumentEnd => RawEvent::DocumentEnd,
        Event::Alias(id) => RawEvent::Alias(id),
        Event::Scalar(v, style, aid, tag) => RawEvent::Scalar(v, style, aid, tag),
        Event::SequenceStart(aid) => RawEvent::SequenceStart(aid),
        Event::SequenceEnd => RawEvent::SequenceEnd,
        Event::MappingStart(aid) => RawEvent::MappingStart(aid),
        Event::MappingEnd => RawEvent::MappingEnd,
    }
}

/// Tells the variants of `yaml_rust::scanner::TScalarStyle` apart. Nothing is
/// claimed of the result.
#[verifier::external_body]
fn style_of(style: TScalarStyle) -> (own: ScalarStyle) {
    match style {
        TScalarStyle::Any => ScalarStyle::Any,
        TScalarStyle::Plain => ScalarStyle::Plain,
        TScalarStyle::SingleQuoted => ScalarStyle::SingleQuoted,
        TScalarStyle::DoubleQuoted => ScalarStyle::DoubleQuoted,
        TScalarStyle::Literal => ScalarStyle::Literal,
        TScalarStyle::Foled => ScalarStyle::Folded,
    }
}

/// The handle and the suffix of a `yaml_rust::scanner::TokenType::Tag`, and
/// nothing for any other token. Nothing is claimed of the result.
#[verifier::external_body]
fn tag_of(tag: Option<TokenType>) -> (parts: Option<(String, String)>) {
    match tag {
        Some(TokenType::Tag(handle, suffix)) => Some((handle, suffix)),
        _ => None,
    }
}

/// `yaml_rust::scanner::Marker::line`. Nothing is claimed of the result.
#[verifier::external_body]
fn marker_line(marker: &Marker) -> (line: usize) {
    marker.line()
}

/// `yaml_rust::scanner::Marker::col`. Nothing is claimed of the result.
#[verifier::external_body]
fn marker_col(marker: &Marker) -> (column: usize) {
    marker.col()
}

/// The events that a parser hands to its receiver, each with its position.
pub struct EventLog {
    events: Vec<(YamlEvent, Position)>,
}

impl EventLog {
    /// The entries of the log, the oldest first.
    pub closed spec fn held(&self) -> Seq<(YamlEvent, Position)> {
        self.events@
    }
}

/// The events of a log as mathematical values.
pub open spec fn signals(events: Seq<(YamlEvent, Position)>) -> Seq<(Signal, Position)> {
    Seq::new(events.len(), |i: int| (events[i].0@, events[i].1))
}

impl MarkedEventReceiver for EventLog {
    /// Takes in one event of the parser: the log keeps what it held, in
    /// order, and holds the event with its position as its new last entry.
    fn on_event(&mut self, ev: Event, marker: Marker)
        ensures
            final(self).held().len() == old(self).held().len() + 1,
            final(self).held().drop_last() == old(self).held(),
    {
        let position = Position { line: marker_line(&marker), column: marker_col(&marker) };
        let event = match unpack_event(ev) {
            RawEvent::Nothing => YamlEvent::Nothing,
            RawEvent::StreamStart => YamlEvent::StreamStart,
            RawEvent::StreamEnd => YamlEvent::StreamEnd,
            RawEvent::DocumentStart => YamlEvent::DocumentStart,
            RawEvent::DocumentEnd => YamlEvent::DocumentEnd,
            RawEvent::Alias(id) => YamlEvent::Alias(id),
            RawEvent::Scalar(v, style, aid, tag) => YamlEvent::Scalar(
                v,
                style_of(style),
                aid,
                tag_of(tag),
            ),
            RawEvent::SequenceStart(aid) => YamlEvent::SequenceStart(aid),
            RawEvent::SequenceEnd => YamlEvent::SequenceEnd,
            RawEvent::MappingStart(aid) => YamlEvent::MappingStart(aid),
            RawEvent::MappingEnd => YamlEvent::MappingEnd,
        };
        self.events.push((event, position));
        assert(self.events@.drop_last() =~= old(self).events@);
    }
}

/// Why a source could not be read as YAML, and where.
#[derive(Clone, Debug, PartialEq, Eq)]
pub struct ParseError {
    /// The parser's own words, position included.
    pub message: String,
    pub line: usize,
    pub column: usize,
}

/// What the parser makes of a source: the events that it hands to a receiver
/// that is asked for every document, or the message, line and column of the
/// error at which it gives up.
pub uninterp spec fn yaml_scan(source: Seq<char>) -> Result<
    Seq<(Signal, Position)>,
    (Seq<char>, usize, usize),
>;

/// `yaml_rust::parser::Parser::new` on the characters of the source, then
/// `Parser::load` for every document, with the log as the receiver. The log
/// pushes each event that it is handed, so where the parser succeeds the log
/// has grown by the events of the source. Where it fails, the error is given
/// as its `Display` text and the line and column of its marker; of the log
/// nothing is claimed then.
#[verifier::external_body]
fn record_events(source: &str, log: &mut EventLog) -> (r: Result<(), ParseError>)
    ensures
        match r {
            Ok(()) => yaml_scan(source@) matches Ok(events) && signals(final(log).events@)
                == signals(old(log).events@) + events,
            Err(e) => yaml_scan(source@) == Err::<Seq<(Signal, Position)>, (Seq<char>, usize, usize)>(
                (e.message@, e.line, e.column),
            ),
        },
{
    Parser::new(source.chars()).load(log, true).map_err(
        |e| ParseError {
            message: e.to_string(),
            line: e.marker().line(),
            column: e.marker().col(),
        },
    )
}

/// What `i64::from_str_radix` makes of a text: the integer that it is the
/// writing of in the given radix, if it is one and fits.
pub uninterp spec fn radix_i64(text: Seq<char>, radix: u32) -> Option<i64>;

/// What `str::parse::<i64>` makes of a text: the integer that it is the
/// decimal writing of, if it is one and fits.
pub uninterp spec fn decimal_i64(text: Seq<char>) -> Option<i64>;

/// Whether `yaml_rust::Yaml::as_f64` reads a real with this text as a number.
pub uninterp spec fn reads_as_real(text: Seq<char>) -> bool;

/// `str::parse::<i64>`, with the error left out.
#[verifier::external_body]
fn text_to_i64(text: &str) -> (number: Option<i64>)
    ensures
        number == decimal_i64(text@),
{
    text.parse::<i64>().ok()
}

/// `yaml_rust::Yaml::as_f64` on a real with the given text: whether the text
/// is read as a number.
#[verifier::external_body]
fn text_is_real(text: &str) -> (reads: bool)
    ensures
        reads == reads_as_real(text@),
{
    yaml_rust::Yaml::Real(text.to_owned()).as_f64().is_some()
}

/// `i64::from_str_radix`, with the error left out. The radix has to be one
/// that the function takes.
#[verifier::external_body]
fn text_to_i64_radix(text: &str, radix: u32) -> (number: Option<i64>)
    requires
        2 <= radix <= 36,
    ensures
        number == radix_i64(text@, radix),
{
    i64::from_str_radix(text, radix).ok()
}

/// Whether a text starts with another.
pub open spec fn starts_with(text: Seq<char>, start: Seq<char>) -> bool {
    text.len() >= start.len() && text.take(start.len() as int) == start
}

/// What a plain scalar without a tag stands for, by the looks of its text: an
/// integer where the text writes one, in hexadecimal after `0x`, in octal
/// after `0o`, or in decimal with or without a sign; a null for `~` and
/// `null`; a boolean for `true` and `false`; a real where the text reads as a
/// number; and a string otherwise.
pub open spec fn plain_scalar(text: Seq<char>) -> Value {
    if starts_with(text, "0x"@) && radix_i64(text.skip(2), 16) is Some {
        Value::Integer(radix_i64(text.skip(2), 16)->Some_0)
    } else if starts_with(text, "0o"@) && radix_i64(text.skip(2), 8) is Some {
        Value::Integer(radix_i64(text.skip(2), 8)->Some_0)
    } else if starts_with(text, "+"@) && decimal_i64(text.skip(1)) is Some {
        Value::Integer(decimal_i64(text.skip(1))->Some_0)
    } else if text == "~"@ || text == "null"@ {
        Value::Null
    } else if text == "true"@ {
        Value::Boolean(true)
    } else if text == "false"@ {
        Value::Boolean(false)
    } else if decimal_i64(text) is Some {
        Value::Integer(decimal_i64(text)->Some_0)
    } else if reads_as_real(text) {
        Value::Real(text)
    } else {
        Value::Text(text)
    }
}

/// What follows the first `count` characters of a text that starts with
/// `start`, or nothing where it does not start so.
fn after_start<'a>(text: &'a str, start: &str, count: usize) -> (rest: Option<&'a str>)
    requires
        start@.len() == count,
    ensures
        rest is Some <==> starts_with(text@, start@),
        rest matches Some(tail) ==> tail@ == text@.skip(count as int),
{
    let len = text.unicode_len();
    if len >= count && same_text(text.substring_char(0, count), start) {
        assert(text@.subrange(0, count as int) =~= text@.take(count as int));
        assert(text@.subrange(count as int, len as int) =~= text@.skip(count as int));
        Some(text.substring_char(count, len))
    } else {
        if len >= count {
            assert(text@.subrange(0, count as int) =~= text@.take(count as int));
        }
        None
    }
}

impl YamlData {
    // Not implementing FromStr because there is no possibility of Error.
    // This function falls back to Yaml::String if nothing else matches.
    /// What a plain scalar without a tag stands for.
    pub fn from_str(v: &str) -> (data: YamlData)
        ensures
            data@ == plain_scalar(v@),
    {
        proof {
            reveal_strlit("0x");
            reveal_strlit("0o");
            reveal_strlit("+");
        }
        if let Some(rest) = after_start(v, "0x", 2) {
            if let Some(i) = text_to_i64_radix(rest, 16) {
                return YamlData::Integer(i);
            }
        }
        if let Some(rest) = after_start(v, "0o", 2) {
            if let Some(i) = text_to_i64_radix(rest, 8) {
                return YamlData::Integer(i);
            }
        }
        if let Some(rest) = after_start(v, "+", 1) {
            if let Some(i) = text_to_i64(rest) {
                return YamlData::Integer(i);
            }
        }
        if same_text(v, "~") || same_text(v, "null") {
            YamlData::Null
        } else if same_text(v, "true") {
            YamlData::Boolean(true)
        } else if same_text(v, "false") {
            YamlData::Boolean(false)
        } else if let Some(i) = text_to_i64(v) {
            YamlData::Integer(i)
        } else if text_is_real(v) {
            // try parsing as f64
            YamlData::Real(v.to_owned())
        } else {
            YamlData::String(v.to_owned())
        }
    }
}

/// The tag of a scalar as texts.
pub open spec fn tag_texts(tag: Option<(String, String)>) -> Option<(Seq<char>, Seq<char>)> {
    match tag {
        Some((handle, suffix)) => Some((handle@, suffix@)),
        None => None,
    }
}

/// What a scalar stands for. One that is not plain is a string. A plain one
/// with a tag of the core schema is read as the tag says, and is a bad value
/// where it cannot be; with another tag it is a string. A plain one without a
/// tag is whatever its text looks like.
pub open spec fn scalar_value(
    text: Seq<char>,
    style: ScalarStyle,
    tag: Option<(Seq<char>, Seq<char>)>,
) -> Value {
    if style != ScalarStyle::Plain {
        Value::Text(text)
    } else {
        match tag {
            Some((handle, suffix)) => {
                if handle != "!!"@ {
                    Value::Text(text)
                } else if suffix == "bool"@ {
                    if text == "true"@ {
                        Value::Boolean(true)
                    } else if text == "false"@ {
                        Value::Boolean(false)
                    } else {
                        Value::BadValue
                    }
                } else if suffix == "int"@ {
                    match decimal_i64(text) {
                        Some(i) => Value::Integer(i),
                        None => Value::BadValue,
                    }
                } else if suffix == "float"@ {
                    if reads_as_real(text) {
                        Value::Real(text)
                    } else {
                        Value::BadValue
                    }
                } else if suffix == "null"@ {
                    if text == "~"@ || text == "null"@ {
                        Value::Null
                    } else {
                        Value::BadValue
                    }
                } else {
                    Value::Text(text)
                }
            },
            None => plain_scalar(text),
        }
    }
}

/// Works out what a scalar stands for.
pub fn resolve_scalar(v: String, style: ScalarStyle, tag: &Option<(String, String)>) -> (data:
    YamlData)
    ensures
        data@ == scalar_value(v@, style, tag_texts(*tag)),
{
    if style != ScalarStyle::Plain {
        return YamlData::String(v);
    }
    match tag {
        Some((handle, suffix)) => {
            if !same_text(handle.as_str(), "!!") {
                YamlData::String(v)
            } else if same_text(suffix.as_str(), "bool") {
                // "true" or "false"
                if same_text(v.as_str(), "true") {
                    YamlData::Boolean(true)
                } else if same_text(v.as_str(), "false") {
                    YamlData::Boolean(false)
                } else {
                    YamlData::BadValue
                }
            } else if same_text(suffix.as_str(), "int") {
                match text_to_i64(v.as_str()) {
                    Some(i) => YamlData::Integer(i),
                    None => YamlData::BadValue,
                }
            } else if same_text(suffix.as_str(), "float") {
                if text_is_real(v.as_str()) {
                    YamlData::Real(v)
                } else {
                    YamlData::BadValue
                }
            } else if same_text(suffix.as_str(), "null") {
                if same_text(v.as_str(), "~") || same_text(v.as_str(), "null") {
                    YamlData::Null
                } else {
                    YamlData::BadValue
                }
            } else {
                YamlData::String(v)
            }
        },
        None => YamlData::from_str(v.as_str()),
    }
}

/// The state of a loader as a mathematical value.
pub struct Loading {
    /// The documents that are complete.
    pub docs: Seq<Node>,
    /// The nodes that are open, each with its anchor, the innermost last.
    pub doc_stack: Seq<(Node, usize)>,
    /// For each open mapping, the key that waits for its value, or a bad value
    /// where none does.
    pub key_stack: Seq<Node>,
    /// The nodes that an alias can refer to.
    pub anchors: Map<usize, Node>,
}

/// The state of a loader that has seen nothing.
pub open spec fn fresh() -> Loading {
    Loading {
        docs: Seq::empty(),
        doc_stack: Seq::empty(),
        key_stack: Seq::empty(),
        anchors: Map::empty(),
    }
}

/// The state after a complete node has been read. The node is remembered
/// under its anchor, if it has one. It then becomes the next item of the
/// innermost open list, or the key or the value of the next pair of the
/// innermost open mapping, or, where nothing is open, the root of a document.
pub open spec fn inserted(state: Loading, node: Node, anchor: usize) -> Loading {
    let anchors = if anchor > 0 {
        state.anchors.insert(anchor, node)
    } else {
        state.anchors
    };
    if state.doc_stack.len() == 0 {
        Loading { doc_stack: state.doc_stack.push((node, anchor)), anchors, ..state }
    } else {
        let (parent, parent_anchor) = state.doc_stack.last();
        match parent.value {
            Value::List(items) => {
                let grown = Node { value: Value::List(items.push(node)), position: parent.position };
                Loading {
                    doc_stack: state.doc_stack.drop_last().push((grown, parent_anchor)),
                    anchors,
                    ..state
                }
            },
            Value::Mapping(pairs) => {
                if state.key_stack.len() == 0 {
                    Loading { anchors, ..state }
                } else if state.key_stack.last().value is BadValue {
                    Loading { key_stack: state.key_stack.drop_last().push(node), anchors, ..state }
                } else {
                    let grown = Node {
                        value: Value::Mapping(pairs.push((state.key_stack.last(), node))),
                        position: parent.position,
                    };
                    Loading {
                        doc_stack: state.doc_stack.drop_last().push((grown, parent_anchor)),
                        key_stack: state.key_stack.drop_last().push(bad_node()),
                        anchors,
                        ..state
                    }
                }
            },
            _ => Loading { anchors, ..state },
        }
    }
}

/// The state after one event. An event that closes what was never opened, or
/// ends a document while more than its root is open, changes nothing.
pub open spec fn after_event(state: Loading, signal: Signal, position: Position) -> Loading {
    match signal {
        Signal::DocumentEnd => {
            if state.doc_stack.len() == 0 {
                Loading {
                    docs: state.docs.push(Node { value: Value::BadValue, position }),
                    ..state
                }
            } else if state.doc_stack.len() == 1 {
                Loading {
                    docs: state.docs.push(state.doc_stack[0].0),
                    doc_stack: Seq::empty(),
                    ..state
                }
            } else {
                state
            }
        },
        Signal::SequenceStart(anchor) => Loading {
            doc_stack: state.doc_stack.push(
                (Node { value: Value::List(Seq::empty()), position }, anchor),
            ),
            ..state
        },
        Signal::SequenceEnd => {
            if state.doc_stack.len() == 0 {
                state
            } else {
                let (node, anchor) = state.doc_stack.last();
                inserted(Loading { doc_stack: state.doc_stack.drop_last(), ..state }, node, anchor)
            }
        },
        Signal::MappingStart(anchor) => Loading {
            doc_stack: state.doc_stack.push(
                (Node { value: Value::Mapping(Seq::empty()), position }, anchor),
            ),
            key_stack: state.key_stack.push(bad_node()),
            ..state
        },
        Signal::MappingEnd => {
            if state.doc_stack.len() == 0 || state.key_stack.len() == 0 {
                state
            } else {
                let (node, anchor) = state.doc_stack.last();
                inserted(
                    Loading {
                        doc_stack: state.doc_stack.drop_last(),
                        key_stack: state.key_stack.drop_last(),
                        ..state
                    },
                    node,
                    anchor,
                )
            }
        },
        Signal::Scalar(text, style, anchor, tag) => inserted(
            state,
            Node { value: scalar_value(text, style, tag), position },
            anchor,
        ),
        Signal::Alias(id) => inserted(
            state,
            if state.anchors.contains_key(id) {
                state.anchors[id]
            } else {
                bad_node()
            },
            0,
        ),
        _ => state,
    }
}

/// The state after a sequence of events.
pub open spec fn after_events(state: Loading, events: Seq<(Signal, Position)>) -> Loading
    decreases events.len(),
{
    if events.len() == 0 {
        state
    } else {
        after_event(after_events(state, events.drop_last()), events.last().0, events.last().1)
    }
}

/// The documents that a sequence of events builds.
pub open spec fn documents_of(events: Seq<(Signal, Position)>) -> Seq<Node> {
    after_events(fresh(), events).docs
}

/// The open nodes of a loader, each with its anchor.
pub open spec fn open_nodes(stack: Seq<(Yaml, usize)>) -> Seq<(Node, usize)> {
    Seq::new(stack.len(), |i: int| (stack[i].0@, stack[i].1))
}

/// The nodes that a list of anchored nodes makes available to aliases. Where
/// an anchor occurs twice, the later node counts.
pub open spec fn anchored(list: Seq<(usize, Yaml)>) -> Map<usize, Node>
    decreases list.len(),
{
    if list.len() == 0 {
        Map::empty()
    } else {
        anchored(list.drop_last()).insert(list.last().0, list.last().1@)
    }
}

/// Builds documents from the events of a parser.
pub struct YamlLoader {
    docs: Vec<Yaml>,
    // states
    // (current node, anchor_id) tuple
    doc_stack: Vec<(Yaml, usize)>,
    key_stack: Vec<Yaml>,
    anchor_map: Vec<(usize, Yaml)>,
}

impl View for YamlLoader {
    type V = Loading;

    closed spec fn view(&self) -> Loading {
        Loading {
            docs: nodes(self.docs@),
            doc_stack: open_nodes(self.doc_stack@),
            key_stack: nodes(self.key_stack@),
            anchors: anchored(self.anchor_map@),
        }
    }
}

impl YamlData {
    pub fn is_null(&self) -> (b: bool)
        ensures
            b == (self@ is Null),
    {
        match *self {
            YamlData::Null => true,
            _ => false,
        }
    }

    pub fn is_badvalue(&self) -> (b: bool)
        ensures
            b == (self@ is BadValue),
    {
        match *self {
            YamlData::BadValue => true,
            _ => false,
        }
    }

    pub fn is_array(&self) -> (b: bool)
        ensures
            b == (self@ is List),
    {
        match *self {
            YamlData::List(_) => true,
            _ => false,
        }
    }
}

impl YamlLoader {
    /// A loader that has seen nothing.
    pub fn new() -> (loader: YamlLoader)
        ensures
            loader@ == fresh(),
    {
        let loader = YamlLoader {
            docs: Vec::new(),
            doc_stack: Vec::new(),
            key_stack: Vec::new(),
            anchor_map: Vec::new(),
        };
        assert(loader@.docs =~= fresh().docs);
        assert(loader@.doc_stack =~= fresh().doc_stack);
        assert(loader@.key_stack =~= fresh().key_stack);
        loader
    }

    /// The node that an alias to `id` stands for: a copy of the node that was
    /// last read under that anchor, or a bad value.
    fn resolve_alias(&self, id: usize) -> (node: Yaml)
        ensures
            node@ == if self@.anchors.contains_key(id) {
                self@.anchors[id]
            } else {
                bad_node()
            },
    {
        let mut i: usize = self.anchor_map.len();
        assert(self.anchor_map@.take(i as int) =~= self.anchor_map@);
        while i > 0
            invariant
                i <= self.anchor_map.len(),
                anchored(self.anchor_map@).contains_key(id) == anchored(
                    self.anchor_map@.take(i as int),
                ).contains_key(id),
                anchored(self.anchor_map@).contains_key(id) ==> anchored(self.anchor_map@)[id]
                    == anchored(self.anchor_map@.take(i as int))[id],
            decreases i,
        {
            i = i - 1;
            assert(self.anchor_map@.take(i as int + 1).drop_last() =~= self.anchor_map@.take(
                i as int,
            ));
            if self.anchor_map[i].0 == id {
                return self.anchor_map[i].1.clone();
            }
        }
        Yaml::bad_value()
    }

    /// Takes in a node that is complete.
    fn insert_new_node(&mut self, node: Yaml, anchor: usize)
        ensures
            final(self)@ == inserted(old(self)@, node@, anchor),
    {
        // valid anchor id starts from 1
        if anchor > 0 {
            let copy = node.clone();
            let ghost list = self.anchor_map@;
            self.anchor_map.push((anchor, copy));
            assert(self.anchor_map@.drop_last() =~= list);
        }
        if self.doc_stack.len() == 0 {
            self.doc_stack.push((node, anchor));
            assert(self@.doc_stack =~= old(self)@.doc_stack.push((node@, anchor)));
            return ;
        }
        let ghost stack = self.doc_stack@;
        let (parent, parent_anchor) = self.doc_stack.pop().unwrap();
        assert(self.doc_stack@ =~= stack.drop_last());
        let Yaml { data, position } = parent;
        let ghost parent_node = stack.last().0@;
        match data {
            YamlData::List(mut v) => {
                proof {
                    lemma_list_view(v);
                }
                v.push(node);
                proof {
                    lemma_list_view(v);
                    assert(nodes(v@) =~= parent_node.value->List_0.push(node@));
                }
                self.doc_stack.push((Yaml { data: YamlData::List(v), position }, parent_anchor));
                assert(self@.doc_stack =~= inserted(old(self)@, node@, anchor).doc_stack);
            },
            YamlData::Mapping(mut h) => {
                proof {
                    lemma_mapping_view(h);
                }
                if self.key_stack.len() == 0 {
                    self.doc_stack.push(
                        (Yaml { data: YamlData::Mapping(h), position }, parent_anchor),
                    );
                    assert(self@.doc_stack =~= old(self)@.doc_stack);
                } else {
                    let ghost keys = self.key_stack@;
                    let cur_key = self.key_stack.pop().unwrap();
                    assert(self.key_stack@ =~= keys.drop_last());
                    // current node is a key
                    if cur_key.data.is_badvalue() {
                        self.key_stack.push(node);
                        self.doc_stack.push(
                            (Yaml { data: YamlData::Mapping(h), position }, parent_anchor),
                        );
                        assert(self@.doc_stack =~= old(self)@.doc_stack);
                        assert(self@.key_stack =~= old(self)@.key_stack.drop_last().push(node@));
                        // current node is a value
                    } else {
                        h.push((cur_key, node));
                        proof {
                            lemma_mapping_view(h);
                            assert(node_pairs(h@) =~= parent_node.value->Mapping_0.push(
                                (keys.last()@, node@),
                            ));
                        }
                        self.key_stack.push(Yaml::bad_value());
                        self.doc_stack.push(
                            (Yaml { data: YamlData::Mapping(h), position }, parent_anchor),
                        );
                        assert(self@.doc_stack =~= inserted(old(self)@, node@, anchor).doc_stack);
                        assert(self@.key_stack =~= old(self)@.key_stack.drop_last().push(
                            bad_node(),
                        ));
                    }
                }
            },
            other => {
                self.doc_stack.push((Yaml { data: other, position }, parent_anchor));
                assert(self@.doc_stack =~= old(self)@.doc_stack);
            },
        }
    }

    /// Takes in one event of the parser.
    pub fn on_event(&mut self, ev: &YamlEvent, position: Position)
        ensures
            final(self)@ == after_event(old(self)@, ev@, position),
    {
        match ev {
            YamlEvent::DocumentStart => {
                // do nothing
            },
            YamlEvent::DocumentEnd => {
                if self.doc_stack.len() == 0 {
                    // empty document
                    self.docs.push(Yaml::new(YamlData::BadValue, position));
                    assert(self@.docs =~= old(self)@.docs.push(
                        Node { value: Value::BadValue, position },
                    ));
                } else if self.doc_stack.len() == 1 {
                    let root = self.doc_stack.pop().unwrap();
                    self.docs.push(root.0);
                    assert(self@.docs =~= old(self)@.docs.push(old(self)@.doc_stack[0].0));
                    assert(self@.doc_stack =~= Seq::<(Node, usize)>::empty());
                }
            },
            YamlEvent::SequenceStart(aid) => {
                let items: Vec<Yaml> = Vec::new();
                proof {
                    lemma_list_view(items);
                    assert(nodes(items@) =~= Seq::<Node>::empty());
                }
                self.doc_stack.push((Yaml::new(YamlData::List(items), position), *aid));
                assert(self@.doc_stack =~= after_event(old(self)@, ev@, position).doc_stack);
            },
            YamlEvent::SequenceEnd => {
                let ghost stack = self@.doc_stack;
                match self.doc_stack.pop() {
                    Some(node) => {
                        assert(self@.doc_stack =~= stack.drop_last());
                        self.insert_new_node(node.0, node.1);
                    },
                    None => {},
                }
            },
            YamlEvent::MappingStart(aid) => {
                let pairs: Vec<(Yaml, Yaml)> = Vec::new();
                proof {
                    lemma_mapping_view(pairs);
                    assert(node_pairs(pairs@) =~= Seq::<(Node, Node)>::empty());
                }
                self.doc_stack.push((Yaml::new(YamlData::Mapping(pairs), position), *aid));
                self.key_stack.push(Yaml::bad_value());
                assert(self@.doc_stack =~= after_event(old(self)@, ev@, position).doc_stack);
                assert(self@.key_stack =~= after_event(old(self)@, ev@, position).key_stack);
            },
            YamlEvent::MappingEnd => {
                if self.doc_stack.len() > 0 && self.key_stack.len() > 0 {
                    let ghost stack = self@.doc_stack;
                    let ghost keys = self@.key_stack;
                    let _ = self.key_stack.pop();
                    assert(self@.key_stack =~= keys.drop_last());
                    let node = self.doc_stack.pop().unwrap();
                    assert(self@.doc_stack =~= stack.drop_last());
                    self.insert_new_node(node.0, node.1);
                }
            },
            YamlEvent::Scalar(v, style, aid, tag) => {
                let yaml_data = resolve_scalar(v.clone(), *style, tag);
                self.insert_new_node(Yaml::new(yaml_data, position), *aid);
            },
            YamlEvent::Alias(id) => {
                let n = self.resolve_alias(*id);
                self.insert_new_node(n, 0);
            },
            _ => {  /* ignore */
            },
        }
    }

    /// Reads the documents of a source. The parser turns the source into
    /// events, or says where it gave up; the documents are built from the
    /// events, one after the other.
    pub fn load_from_str(source: &str) -> (r: Result<Vec<Yaml>, ParseError>)
        ensures
            match r {
                Ok(docs) => yaml_scan(source@) matches Ok(events) && nodes(docs@) == documents_of(
                    events,
                ),
                Err(e) => yaml_scan(source@) == Err::<
                    Seq<(Signal, Position)>,
                    (Seq<char>, usize, usize),
                >((e.message@, e.line, e.column)),
            },
    {
        let mut log = EventLog { events: Vec::new() };
        match record_events(source, &mut log) {
            Ok(()) => {},
            Err(e) => {
                return Err(e);
            },
        }
        let ghost events = signals(log.events@);
        assert(events == yaml_scan(source@)->Ok_0) by {
            assert(signals(Seq::<(YamlEvent, Position)>::empty()) + yaml_scan(source@)->Ok_0
                =~= yaml_scan(source@)->Ok_0);
        }
        let mut loader = YamlLoader::new();
        let mut i: usize = 0;
        assert(events.take(0) =~= Seq::<(Signal, Position)>::empty());
        while i < log.events.len()
            invariant
                i <= log.events.len(),
                events == signals(log.events@),
                loader@ == after_events(fresh(), events.take(i as int)),
            decreases log.events.len() - i,
        {
            loader.on_event(&log.events[i].0, log.events[i].1);
            assert(events.take(i as int + 1).drop_last() =~= events.take(i as int));
            i = i + 1;
        }
        assert(events.take(i as int) =~= events);
        Ok(loader.docs)
    }
}

/// The index of the first pair of a mapping whose key holds `key`, or the
/// number of pairs where there is none.
pub open spec fn key_position(pairs: Seq<(Node, Node)>, key: Value) -> int
    decreases pairs.len(),
{
    if pairs.len() == 0 {
        0
    } else if pairs[0].0.value == key {
        0
    } else {
        1 + key_position(pairs.drop_first(), key)
    }
}

/// The node that a mapping holds under the key `key`: that of the first pair
/// with that key. Anything but a mapping holds nothing.
pub open spec fn value_under(value: Value, key: Value) -> Option<Node> {
    match value {
        Value::Mapping(pairs) => {
            let at = key_position(pairs, key);
            if 0 <= at < pairs.len() {
                Some(pairs[at].1)
            } else {
                None
            }
        },
        _ => None,
    }
}

/// The node at `index` of a list, or the node under the integer key `index` of
/// a mapping.
pub open spec fn value_at(value: Value, index: usize) -> Option<Node> {
    match value {
        Value::List(items) => if index < items.len() {
            Some(items[index as int])
        } else {
            None
        },
        Value::Mapping(_) => value_under(value, Value::Integer(index as i64)),
        _ => None,
    }
}

pub proof fn lemma_key_position(pairs: Seq<(Node, Node)>, key: Value)
    ensures
        0 <= key_position(pairs, key) <= pairs.len(),
        key_position(pairs, key) < pairs.len() ==> pairs[key_position(pairs, key)].0.value == key,
        forall|i: int| 0 <= i < key_position(pairs, key) ==> (#[trigger] pairs[i]).0.value != key,
    decreases pairs.len(),
{
    if pairs.len() > 0 && pairs[0].0.value != key {
        lemma_key_position(pairs.drop_first(), key);
        assert forall|i: int| 0 <= i < key_position(pairs, key) implies (#[trigger] pairs[i]).0.value
            != key by {
            if i > 0 {
                assert(pairs[i] == pairs.drop_first()[i - 1]);
            }
        }
    }
}

impl YamlData {
    /// Whether this is the string `text`.
    pub fn is_text(&self, text: &str) -> (b: bool)
        ensures
            b == (self@ == Value::Text(text@)),
    {
        match self {
            YamlData::String(s) => same_text(s.as_str(), text),
            _ => false,
        }
    }

    /// Whether this is the integer `number`.
    pub fn is_integer(&self, number: i64) -> (b: bool)
        ensures
            b == (self@ == Value::Integer(number)),
    {
        match self {
            YamlData::Integer(i) => *i == number,
            _ => false,
        }
    }

    /// The node under the string key `key` of a mapping.
    pub fn get(&self, key: &str) -> (found: Option<&Yaml>)
        ensures
            match found {
                Some(node) => value_under(self@, Value::Text(key@)) == Some(node@),
                None => value_under(self@, Value::Text(key@)) is None,
            },
    {
        match self {
            YamlData::Mapping(pairs) => {
                proof {
                    lemma_mapping_view(*pairs);
                    lemma_key_position(node_pairs(pairs@), Value::Text(key@));
                }
                let mut i: usize = 0;
                while i < pairs.len()
                    invariant
                        i <= pairs.len(),
                        self@ == Value::Mapping(node_pairs(pairs@)),
                        forall|k: int|
                            0 <= k < i ==> (#[trigger] node_pairs(pairs@)[k]).0.value != Value::Text(
                                key@,
                            ),
                    decreases pairs.len() - i,
                {
                    if pairs[i].0.data.is_text(key) {
                        proof {
                            assert(node_pairs(pairs@)[i as int].0.value == Value::Text(key@));
                            lemma_key_position(node_pairs(pairs@), Value::Text(key@));
                        }
                        return Some(&pairs[i].1);
                    }
                    assert(node_pairs(pairs@)[i as int].0.value != Value::Text(key@));
                    i = i + 1;
                }
                None
            },
            _ => None,
        }
    }

    /// The node at `index` of a list, or under the integer key `index` of a
    /// mapping.
    pub fn at(&self, index: usize) -> (found: Option<&Yaml>)
        ensures
            match found {
                Some(node) => value_at(self@, index) == Some(node@),
                None => value_at(self@, index) is None,
            },
    {
        match self {
            YamlData::List(items) => {
                proof {
                    lemma_list_view(*items);
                }
                if index < items.len() {
                    Some(&items[index])
                } else {
                    None
                }
            },
            YamlData::Mapping(pairs) => {
                let number = #[verifier::truncate]
                (index as i64);
                proof {
                    lemma_mapping_view(*pairs);
                    lemma_key_position(node_pairs(pairs@), Value::Integer(number));
                }
                let mut i: usize = 0;
                while i < pairs.len()
                    invariant
                        i <= pairs.len(),
                        number == index as i64,
                        self@ == Value::Mapping(node_pairs(pairs@)),
                        forall|k: int|
                            0 <= k < i ==> (#[trigger] node_pairs(pairs@)[k]).0.value
                                != Value::Integer(number),
                    decreases pairs.len() - i,
                {
                    if pairs[i].0.data.is_integer(number) {
                        proof {
                            assert(node_pairs(pairs@)[i as int].0.value == Value::Integer(number));
                            lemma_key_position(node_pairs(pairs@), Value::Integer(number));
                        }
                        return Some(&pairs[i].1);
                    }
                    assert(node_pairs(pairs@)[i as int].0.value != Value::Integer(number));
                    i = i + 1;
                }
                None
            },
            _ => None,
        }
    }
}

impl YamlData {
    pub fn as_bool(&self) -> (found: Option<bool>)
        ensures
            found == (match self@ {
                Value::Boolean(b) => Some(b),
                _ => None,
            }),
    {
        match *self {
            YamlData::Boolean(v) => Some(v),
            _ => None,
        }
    }

    pub fn as_i64(&self) -> (found: Option<i64>)
        ensures
            found == (match self@ {
                Value::Integer(i) => Some(i),
                _ => None,
            }),
    {
        match *self {
            YamlData::Integer(v) => Some(v),
            _ => None,
        }
    }

    pub fn as_str(&self) -> (found: Option<&str>)
        ensures
            match found {
                Some(text) => self@ == Value::Text(text@),
                None => !(self@ is Text),
            },
    {
        match self {
            YamlData::String(v) => Some(v.as_str()),
            _ => None,
        }
    }

    pub fn as_vec(&self) -> (found: Option<&Vec<Yaml>>)
        ensures
            match found {
                Some(items) => self@ == Value::List(nodes(items@)),
                None => !(self@ is List),
            },
    {
        match self {
            YamlData::List(v) => {
                proof {
                    lemma_list_view(*v);
                }
                Some(v)
            },
            _ => None,
        }
    }

    pub fn into_bool(self) -> (found: Option<bool>)
        ensures
            found == (match self@ {
                Value::Boolean(b) => Some(b),
                _ => None,
            }),
    {
        match self {
            YamlData::Boolean(v) => Some(v),
            _ => None,
        }
    }

    pub fn into_i64(self) -> (found: Option<i64>)
        ensures
            found == (match self@ {
                Value::Integer(i) => Some(i),
                _ => None,
            }),
    {
        match self {
            YamlData::Integer(v) => Some(v),
            _ => None,
        }
    }

    pub fn into_string(self) -> (found: Option<String>)
        ensures
            match found {
                Some(text) => self@ == Value::Text(text@),
                None => !(self@ is Text),
            },
    {
        match self {
            YamlData::String(v) => Some(v),
            _ => None,
        }
    }

    pub fn into_vec(self) -> (found: Option<Vec<Yaml>>)
        ensures
            match found {
                Some(items) => self@ == Value::List(nodes(items@)),
                None => !(self@ is List),
            },
    {
        match self {
            YamlData::List(v) => {
                proof {
                    lemma_list_view(v);
                }
                Some(v)
            },
            _ => None,
        }
    }
}

} // verus!
