//! The fields that a dissector records, and the handles it records them through.
//!
//! Adding a `ProtoField` records a value at the handle's own level. Adding a `Proto` opens a
//! subtree there, and what is added through the subtree's own handle goes inside it. Selecting a
//! field by name looks through the whole nesting.

use vstd::prelude::*;
use vstd::string::*;
use vstd::utf8::{decode_utf8, valid_utf8};
use crate::bytes::copy_bytes;
use crate::lua::tvb::{to_unsigned, two_complement, uint_of, TvbRange};
use crate::text::{dec, digit_char, hex_of, push_dec, text_equal};

verus! {

/// How a field takes its value from a range of bytes.
#[derive(Clone, Copy, Debug, PartialEq, Eq, Structural)]
pub enum FieldKind {
    UInt,
    Str,
    Bytes,
}

/// A registered `ProtoField`: the name it is output under, and its kind.
pub struct FieldDef {
    pub name: String,
    pub kind: FieldKind,
}

/// A recorded value.
#[derive(Debug, PartialEq)]
pub enum FieldValue {
    UInt(u64),
    Str(String),
    Bytes(Vec<u8>),
    /// A subtree. Several subtrees of one name under one parent are several entries of that name,
    /// as with any field.
    Tree(FrameFields),
}

/// What was recorded at one level, in order.
#[derive(Debug, PartialEq)]
pub struct FrameFields {
    pub entries: Vec<(String, FieldValue)>,
    pub protocol: Option<String>,
    pub info: Option<String>,
    pub malformed: Vec<String>,
}

/// What a `FieldValue` holds.
pub enum ValueModel {
    UInt(u64),
    Str(Seq<char>),
    Bytes(Seq<u8>),
    Tree(FieldsModel),
}

/// What a `FrameFields` holds.
pub struct FieldsModel {
    pub entries: Seq<(Seq<char>, ValueModel)>,
    pub protocol: Option<Seq<char>>,
    pub info: Option<Seq<char>>,
    pub malformed: Seq<Seq<char>>,
}

pub open spec fn value_model(v: FieldValue) -> ValueModel
    decreases v,
{
    match v {
        FieldValue::UInt(n) => ValueModel::UInt(n),
        FieldValue::Str(s) => ValueModel::Str(s@),
        FieldValue::Bytes(b) => ValueModel::Bytes(b@),
        FieldValue::Tree(f) => ValueModel::Tree(fields_model(f)),
    }
}

pub open spec fn entries_model(entries: Seq<(String, FieldValue)>) -> Seq<(Seq<char>, ValueModel)>
    decreases entries,
{
    Seq::new(
        entries.len(),
        |i: int|
            if 0 <= i < entries.len() {
                (entries[i].0@, value_model(entries[i].1))
            } else {
                arbitrary()
            },
    )
}

pub open spec fn text_of(s: Option<String>) -> Option<Seq<char>> {
    match s {
        Some(s) => Some(s@),
        None => None,
    }
}

pub open spec fn fields_model(f: FrameFields) -> FieldsModel
    decreases f,
{
    FieldsModel {
        entries: entries_model(f.entries@),
        protocol: text_of(f.protocol),
        info: text_of(f.info),
        malformed: f.malformed@.map_values(|s: String| s@),
    }
}

impl View for FieldValue {
    type V = ValueModel;

    open spec fn view(&self) -> ValueModel {
        value_model(*self)
    }
}

impl View for FrameFields {
    type V = FieldsModel;

    open spec fn view(&self) -> FieldsModel {
        fields_model(*self)
    }
}

impl FieldsModel {
    /// Nothing recorded.
    pub open spec fn empty() -> FieldsModel {
        FieldsModel {
            entries: Seq::empty(),
            protocol: None,
            info: None,
            malformed: Seq::empty(),
        }
    }
}

impl Default for FrameFields {
    fn default() -> (f: FrameFields)
        ensures
            f@ == FieldsModel::empty(),
    {
        let f = FrameFields {
            entries: Vec::new(),
            protocol: None,
            info: None,
            malformed: Vec::new(),
        };
        proof {
            assert(f@.entries =~= Seq::empty());
            assert(f@.malformed =~= Seq::empty());
        }
        f
    }
}

/// A value as text. A subtree has none of its own.
pub open spec fn output_text(v: ValueModel) -> Seq<char> {
    match v {
        ValueModel::UInt(n) => dec(n as nat),
        ValueModel::Str(s) => s,
        ValueModel::Bytes(b) => hex_of(b),
        ValueModel::Tree(_) => Seq::empty(),
    }
}

/// Appends the bytes in hexadecimal.
fn hex_encode(bytes: &[u8]) -> (out: String)
    ensures
        out@ == hex_of(bytes@),
{
    let mut out = String::new();
    let mut i: usize = 0;
    while i < bytes.len()
        invariant
            i <= bytes@.len(),
            out@ == hex_of(bytes@.take(i as int)),
        decreases bytes@.len() - i,
    {
        let b: u8 = bytes[i];
        out.push(digit_char(b / 16));
        out.push(digit_char(b % 16));
        proof {
            let before = bytes@.take(i as int);
            let after = bytes@.take(i + 1);
            assert forall|j: int| 0 <= j < out@.len() implies out@[j] == hex_of(after)[j] by {
                if j < 2 * i {
                    assert(0 <= j / 2 < i);
                    assert(before[j / 2] == after[j / 2]);
                    assert(out@[j] == hex_of(before)[j]);
                } else {
                    assert(j / 2 == i);
                }
            }
            assert(out@ =~= hex_of(after));
        }
        i += 1;
    }
    assert(bytes@.take(bytes@.len() as int) =~= bytes@);
    out
}

impl FieldValue {
    /// The value as text.
    pub fn to_output_string(&self) -> (text: String)
        ensures
            text@ == output_text(self@),
    {
        match self {
            FieldValue::UInt(n) => {
                let mut out = String::new();
                push_dec(&mut out, *n as u128);
                assert(out@ =~= dec(*n as nat));
                out
            },
            FieldValue::Str(s) => s.clone(),
            FieldValue::Bytes(b) => hex_encode(b.as_slice()),
            FieldValue::Tree(_) => String::new(),
        }
    }
}

/// The values of all entries named `name`, at any depth, in order. A subtree is searched through
/// whatever its own name, and is no value itself.
pub open spec fn values_named(entries: Seq<(Seq<char>, ValueModel)>, name: Seq<char>) -> Seq<
    ValueModel,
>
    decreases entries,
{
    values_named_upto(entries, name, entries.len() as int)
}

/// The values among the first `n` entries.
pub open spec fn values_named_upto(
    entries: Seq<(Seq<char>, ValueModel)>,
    name: Seq<char>,
    n: int,
) -> Seq<ValueModel>
    decreases entries, n,
{
    if n <= 0 || n > entries.len() {
        Seq::empty()
    } else {
        let (entry_name, value) = entries[n - 1];
        values_named_upto(entries, name, n - 1) + match value {
            ValueModel::Tree(child) => values_named(child.entries, name),
            _ => if entry_name == name {
                seq![value]
            } else {
                Seq::empty()
            },
        }
    }
}

/// What a run of values holds.
pub open spec fn values_model(values: Seq<FieldValue>) -> Seq<ValueModel> {
    values.map_values(|v: FieldValue| v@)
}

fn copy_text(text: &Option<String>) -> (copy: Option<String>)
    ensures
        text_of(copy) == text_of(*text),
{
    match text {
        Some(text) => Some(text.clone()),
        None => None,
    }
}

impl FieldValue {
    /// A copy of the value, subtrees and all.
    pub fn duplicate(&self) -> (copy: FieldValue)
        ensures
            copy@ == self@,
        decreases self,
    {
        match self {
            FieldValue::UInt(n) => FieldValue::UInt(*n),
            FieldValue::Str(s) => FieldValue::Str(s.clone()),
            FieldValue::Bytes(b) => FieldValue::Bytes(copy_bytes(b.as_slice())),
            FieldValue::Tree(f) => FieldValue::Tree(f.duplicate()),
        }
    }
}

impl FrameFields {
    /// A copy of everything recorded at this level and below.
    pub fn duplicate(&self) -> (copy: FrameFields)
        ensures
            copy@ == self@,
        decreases self,
    {
        let mut entries: Vec<(String, FieldValue)> = Vec::new();
        let mut i: usize = 0;
        while i < self.entries.len()
            invariant
                i <= self.entries@.len(),
                entries_model(entries@) =~= entries_model(self.entries@).take(i as int),
            decreases self.entries@.len() - i,
        {
            let ghost before = entries@;
            let entry = &self.entries[i];
            let value = entry.1.duplicate();
            entries.push((entry.0.clone(), value));
            i += 1;
            assert(entries_model(entries@) =~= entries_model(before).push((entry.0@, entry.1@)));
        }
        let mut malformed: Vec<String> = Vec::new();
        let mut j: usize = 0;
        while j < self.malformed.len()
            invariant
                j <= self.malformed@.len(),
                malformed@ =~= self.malformed@.take(j as int),
            decreases self.malformed@.len() - j,
        {
            malformed.push(self.malformed[j].clone());
            j += 1;
        }
        assert(malformed@ =~= self.malformed@);
        let copy = FrameFields {
            entries,
            protocol: copy_text(&self.protocol),
            info: copy_text(&self.info),
            malformed,
        };
        proof {
            assert(copy@.entries =~= self@.entries);
            assert(copy@.malformed =~= self@.malformed);
        }
        copy
    }

    /// The values of every field named `field_name`, at any depth, in the order recorded.
    pub fn values_for(&self, field_name: &str) -> (out: Vec<FieldValue>)
        ensures
            values_model(out@) == values_named(self@.entries, field_name@),
    {
        let mut out: Vec<FieldValue> = Vec::new();
        self.collect_values_for(field_name, &mut out);
        assert(values_model(out@) =~= values_named(self@.entries, field_name@));
        out
    }

    fn collect_values_for(&self, field_name: &str, out: &mut Vec<FieldValue>)
        ensures
            values_model(final(out)@) == values_model(old(out)@) + values_named(
                self@.entries,
                field_name@,
            ),
        decreases self,
    {
        let mut i: usize = 0;
        let ghost entries = self@.entries;
        assert(values_model(out@) =~= values_model(old(out)@) + values_named_upto(
            entries,
            field_name@,
            0,
        ));
        while i < self.entries.len()
            invariant
                i <= self.entries@.len(),
                entries == self@.entries,
                values_model(out@) == values_model(old(out)@) + values_named_upto(
                    entries,
                    field_name@,
                    i as int,
                ),
            decreases self.entries@.len() - i,
        {
            let ghost before = out@;
            let entry = &self.entries[i];
            assert(entries[i as int] == (entry.0@, entry.1@));
            let matching = text_equal(entry.0.as_str(), field_name);
            match &entry.1 {
                FieldValue::Tree(child) => {
                    child.collect_values_for(field_name, out);
                },
                _ => {
                    if matching {
                        out.push(entry.1.duplicate());
                        assert(values_model(out@) =~= values_model(before).push(entry.1@));
                    }
                },
            }
            i += 1;
            assert(values_model(out@) =~= values_model(old(out)@) + values_named_upto(
                entries,
                field_name@,
                i as int,
            ));
        }
    }
}

/// A value that was recorded at a level is found there by its name, whatever else is there.
pub proof fn law_recorded_values_are_found(
    entries: Seq<(Seq<char>, ValueModel)>,
    name: Seq<char>,
    value: ValueModel,
)
    requires
        !(value is Tree),
    ensures
        values_named(entries.push((name, value)), name) == values_named(entries, name).push(value),
{
    let more = entries.push((name, value));
    lemma_values_prefix(entries, more, name, entries.len() as int);
    assert(values_named(more, name) =~= values_named(entries, name).push(value));
}

/// What is found under a name among entries is what is found among the first of them and then
/// among the rest; in a leaf that is the leaf if it has the name, and in a subtree what is found
/// among the subtree's entries.
pub proof fn law_values_are_found_in_order(
    a: Seq<(Seq<char>, ValueModel)>,
    b: Seq<(Seq<char>, ValueModel)>,
    entry: (Seq<char>, ValueModel),
    name: Seq<char>,
)
    ensures
        values_named(a + b, name) == values_named(a, name) + values_named(b, name),
        !(entry.1 is Tree) && entry.0 == name ==> values_named(seq![entry], name) == seq![entry.1],
        !(entry.1 is Tree) && entry.0 != name ==> values_named(seq![entry], name) == Seq::<
            ValueModel,
        >::empty(),
        entry.1 is Tree ==> values_named(seq![entry], name) == values_named(
            entry.1->Tree_0.entries,
            name,
        ),
{
    let one = seq![entry];
    assert(one[0] == entry);
    assert(values_named_upto(one, name, 0) =~= Seq::empty());
    assert(values_named(one, name) == values_named_upto(one, name, 1));
    assert(values_named_upto(one, name, 1) =~= match entry.1 {
        ValueModel::Tree(child) => values_named(child.entries, name),
        _ => if entry.0 == name {
            seq![entry.1]
        } else {
            Seq::empty()
        },
    });
    let n = a.len() as int;
    lemma_found_before(a, b, name, n);
    lemma_found_behind(a, b, name, b.len() as int);
}

proof fn lemma_found_before(
    a: Seq<(Seq<char>, ValueModel)>,
    b: Seq<(Seq<char>, ValueModel)>,
    name: Seq<char>,
    n: int,
)
    requires
        0 <= n <= a.len(),
    ensures
        values_named_upto(a + b, name, n) == values_named_upto(a, name, n),
    decreases n,
{
    if n > 0 {
        lemma_found_before(a, b, name, n - 1);
        assert((a + b)[n - 1] == a[n - 1]);
    }
}

proof fn lemma_found_behind(
    a: Seq<(Seq<char>, ValueModel)>,
    b: Seq<(Seq<char>, ValueModel)>,
    name: Seq<char>,
    n: int,
)
    requires
        0 <= n <= b.len(),
    ensures
        values_named_upto(a + b, name, a.len() + n) == values_named(a, name) + values_named_upto(
            b,
            name,
            n,
        ),
    decreases n,
{
    lemma_found_before(a, b, name, a.len() as int);
    if n > 0 {
        lemma_found_behind(a, b, name, n - 1);
        assert((a + b)[a.len() + n - 1] == b[n - 1]);
        assert(values_named_upto(a + b, name, a.len() + n) =~= values_named(a, name)
            + values_named_upto(b, name, n));
    } else {
        assert(values_named_upto(b, name, 0) =~= Seq::empty());
        assert(values_named(a, name) + Seq::empty() =~= values_named(a, name));
    }
}

/// A subtree's values are found from the level that holds it, at any depth.
pub proof fn law_nested_values_are_found(
    entries: Seq<(Seq<char>, ValueModel)>,
    tree_name: Seq<char>,
    child: FieldsModel,
    name: Seq<char>,
)
    ensures
        values_named(entries.push((tree_name, ValueModel::Tree(child))), name) == values_named(
            entries,
            name,
        ) + values_named(child.entries, name),
{
    let more = entries.push((tree_name, ValueModel::Tree(child)));
    lemma_values_prefix(entries, more, name, entries.len() as int);
}

proof fn lemma_values_prefix(
    entries: Seq<(Seq<char>, ValueModel)>,
    more: Seq<(Seq<char>, ValueModel)>,
    name: Seq<char>,
    n: int,
)
    requires
        0 <= n <= entries.len() <= more.len(),
        entries =~= more.take(entries.len() as int),
    ensures
        values_named_upto(more, name, n) == values_named_upto(entries, name, n),
    decreases n,
{
    if n > 0 {
        lemma_values_prefix(entries, more, name, n - 1);
        assert(entries[n - 1] == more[n - 1]);
    }
}

impl FieldsModel {
    /// `path` leads from this level into a subtree: each step is the place of a subtree's entry.
    pub open spec fn has_node(self, path: Seq<usize>) -> bool
        decreases path.len(),
    {
        path.len() > 0 ==> {
            &&& path[0] < self.entries.len()
            &&& self.entries[path[0] as int].1 is Tree
            &&& self.entries[path[0] as int].1->Tree_0.has_node(path.drop_first())
        }
    }

    /// The level that `path` leads to.
    pub open spec fn node(self, path: Seq<usize>) -> FieldsModel
        decreases path.len(),
    {
        if path.len() == 0 {
            self
        } else {
            self.entries[path[0] as int].1->Tree_0.node(path.drop_first())
        }
    }

    /// This level with the one that `path` leads to replaced.
    pub open spec fn with_node(self, path: Seq<usize>, node: FieldsModel) -> FieldsModel
        decreases path.len(),
    {
        if path.len() == 0 {
            node
        } else {
            let (name, value) = self.entries[path[0] as int];
            FieldsModel {
                entries: self.entries.update(
                    path[0] as int,
                    (name, ValueModel::Tree(value->Tree_0.with_node(path.drop_first(), node))),
                ),
                ..self
            }
        }
    }

    /// A value recorded at the level that `path` leads to.
    pub open spec fn record(self, path: Seq<usize>, name: Seq<char>, value: ValueModel) -> FieldsModel {
        let node = self.node(path);
        self.with_node(path, FieldsModel { entries: node.entries.push((name, value)), ..node })
    }

    /// A complaint about malformed data noted at the level that `path` leads to.
    pub open spec fn complain(self, path: Seq<usize>, message: Seq<char>) -> FieldsModel {
        let node = self.node(path);
        self.with_node(path, FieldsModel { malformed: node.malformed.push(message), ..node })
    }
}

/// A handle to a level of the fields that one dissection records, as the path to it.
pub struct TreeItem {
    pub path: Vec<usize>,
}

fn record_at(fields: &mut FrameFields, path: &Vec<usize>, depth: usize, name: &str, value: FieldValue)
    requires
        depth <= path@.len(),
        old(fields)@.has_node(path@.skip(depth as int)),
    ensures
        final(fields)@ == old(fields)@.record(path@.skip(depth as int), name@, value@),
    decreases path@.len() - depth,
{
    let ghost rest = path@.skip(depth as int);
    let ghost before = fields@;
    if depth == path.len() {
        let ghost v = value@;
        fields.entries.push((name.to_string(), value));
        assert(fields@.entries =~= before.entries.push((name@, v)));
    } else {
        let i: usize = path[depth];
        assert(rest[0] == i);
        assert(rest.drop_first() =~= path@.skip(depth + 1));
        assert(before.entries[i as int] == (fields.entries@[i as int].0@, fields.entries@[i as int].1@));
        if let FieldValue::Tree(child) = &mut fields.entries[i].1 {
            record_at(child, path, depth + 1, name, value);
        }
        assert(fields@.entries =~= before.record(rest, name@, value@).entries);
    }
}

fn complain_at(fields: &mut FrameFields, path: &Vec<usize>, depth: usize, message: String)
    requires
        depth <= path@.len(),
        old(fields)@.has_node(path@.skip(depth as int)),
    ensures
        final(fields)@ == old(fields)@.complain(path@.skip(depth as int), message@),
    decreases path@.len() - depth,
{
    let ghost rest = path@.skip(depth as int);
    let ghost before = fields@;
    let ghost text = message@;
    if depth == path.len() {
        fields.malformed.push(message);
        assert(fields@.malformed =~= before.malformed.push(text));
    } else {
        let i: usize = path[depth];
        assert(rest[0] == i);
        assert(rest.drop_first() =~= path@.skip(depth + 1));
        assert(before.entries[i as int] == (
            fields.entries@[i as int].0@,
            fields.entries@[i as int].1@,
        ));
        if let FieldValue::Tree(child) = &mut fields.entries[i].1 {
            complain_at(child, path, depth + 1, message);
        }
        assert(fields@.entries =~= before.complain(rest, text).entries);
    }
}

/// The number of entries at the level that a path leads to.
fn entries_at(fields: &FrameFields, path: &Vec<usize>, depth: usize) -> (n: usize)
    requires
        depth <= path@.len(),
        fields@.has_node(path@.skip(depth as int)),
    ensures
        n == fields@.node(path@.skip(depth as int)).entries.len(),
    decreases path@.len() - depth,
{
    if depth == path.len() {
        fields.entries.len()
    } else {
        let ghost rest = path@.skip(depth as int);
        let i: usize = path[depth];
        proof {
            assert(rest[0] == i);
            assert(rest.drop_first() =~= path@.skip(depth + 1));
            assert(fields@.entries[i as int] == (
                fields.entries@[i as int].0@,
                fields.entries@[i as int].1@,
            ));
        }
        match &fields.entries[i].1 {
            FieldValue::Tree(child) => entries_at(child, path, depth + 1),
            _ => {
                assert(false);
                0
            },
        }
    }
}

/// An argument of `TreeItem:add`, as far as it matters there.
pub enum AddArg {
    /// A `ProtoField`.
    Field(FieldDef),
    /// A `Proto`, or any other table with a name.
    Proto(String),
    Range(TvbRange),
    UInt64(UInt64),
    /// A handle of another sort.
    OtherUserData,
    Integer(i64),
    /// A floating-point number, cut to an unsigned integer.
    Number(u64),
    Text(String),
    Other,
}

impl AddArg {
    /// A range lies within its bytes.
    pub open spec fn wf(&self) -> bool {
        self matches AddArg::Range(range) ==> range.wf()
    }
}

/// What `String::from_utf8_lossy` makes of bytes.
pub uninterp spec fn utf8_lossy(bytes: Seq<u8>) -> Seq<char>;

/// Calls `String::from_utf8_lossy`. The text depends on the bytes alone; valid UTF-8 is decoded as
/// it is.
#[verifier::external_body]
fn text_from_utf8_lossy(bytes: &[u8]) -> (text: String)
    ensures
        text@ == utf8_lossy(bytes@),
        valid_utf8(bytes@) ==> text@ == decode_utf8(bytes@),
{
    String::from_utf8_lossy(bytes).into_owned()
}

/// The value that an argument gives by itself.
pub open spec fn explicit_value(arg: AddArg) -> Option<ValueModel> {
    match arg {
        AddArg::Integer(i) => Some(ValueModel::UInt(two_complement(i))),
        AddArg::Number(n) => Some(ValueModel::UInt(n)),
        AddArg::Text(s) => Some(ValueModel::Str(s@)),
        AddArg::UInt64(n) => Some(ValueModel::UInt(n.0)),
        _ => None,
    }
}

/// A 64-bit unsigned integer as a dissector holds it.
#[derive(Clone, Copy, Debug, PartialEq, Eq, Structural)]
pub struct UInt64(pub u64);

impl UInt64 {
    /// `UInt64.new(..)`: a number, cut to an unsigned integer; anything else counts as zero.
    pub fn new(arg: &AddArg) -> (n: UInt64)
        ensures
            n.0 == match *arg {
                AddArg::Integer(i) => two_complement(i),
                AddArg::Number(n) => n,
                _ => 0,
            },
    {
        match arg {
            AddArg::Integer(i) => UInt64(to_unsigned(*i)),
            AddArg::Number(n) => UInt64(*n),
            _ => UInt64(0),
        }
    }

    /// The number in decimal.
    pub fn text(&self) -> (out: String)
        ensures
            out@ == dec(self.0 as nat),
    {
        let mut out = String::new();
        push_dec(&mut out, self.0 as u128);
        assert(out@ =~= dec(self.0 as nat));
        out
    }
}

fn value_from_lua(arg: &AddArg) -> (value: Option<FieldValue>)
    ensures
        match value {
            Some(value) => explicit_value(*arg) == Some(value@),
            None => explicit_value(*arg) is None,
        },
{
    match arg {
        AddArg::Integer(i) => Some(FieldValue::UInt(to_unsigned(*i))),
        AddArg::Number(n) => Some(FieldValue::UInt(*n)),
        AddArg::Text(s) => Some(FieldValue::Str(s.clone())),
        AddArg::UInt64(n) => Some(FieldValue::UInt(n.0)),
        _ => None,
    }
}

/// The value that a range of bytes gives a field of some kind. A range that is no integer counts
/// as zero.
pub open spec fn range_value(content: Seq<u8>, kind: FieldKind, little_endian: bool) -> ValueModel {
    match kind {
        FieldKind::UInt => match uint_of(content, little_endian) {
            Some(n) => ValueModel::UInt(n as u64),
            None => ValueModel::UInt(0),
        },
        FieldKind::Bytes => ValueModel::Bytes(content),
        FieldKind::Str => ValueModel::Str(utf8_lossy(content)),
    }
}

fn value_from_tvbrange(range: &TvbRange, kind: FieldKind, little_endian: bool) -> (value: FieldValue)
    requires
        range.wf(),
    ensures
        value@ == range_value(range.content(), kind, little_endian),
{
    match kind {
        FieldKind::UInt => {
            let n = if little_endian {
                range.uint_le()
            } else {
                range.uint_be()
            };
            match n {
                Ok(n) => FieldValue::UInt(n),
                Err(_) => FieldValue::UInt(0),
            }
        },
        FieldKind::Bytes => FieldValue::Bytes(copy_bytes(range.bytes())),
        FieldKind::Str => FieldValue::Str(text_from_utf8_lossy(range.bytes())),
    }
}

pub open spec fn value_or_zero(value: Option<ValueModel>) -> ValueModel {
    match value {
        Some(value) => value,
        None => ValueModel::UInt(0),
    }
}

/// The value that a field takes from the arguments after it: from a range alone, or from an
/// explicit value, the last one if there are several. A range in front of an explicit value
/// stands in where that is none.
pub open spec fn field_value(args: Seq<AddArg>, kind: FieldKind, little_endian: bool) -> ValueModel {
    if args.len() == 0 {
        ValueModel::UInt(0)
    } else if args.len() == 1 {
        match args[0] {
            AddArg::Range(range) => range_value(range.content(), kind, little_endian),
            _ => value_or_zero(explicit_value(args[0])),
        }
    } else if args.len() == 2 && args[0] is Range && explicit_value(args[1]) is None {
        range_value(args[0]->Range_0.content(), kind, false)
    } else {
        value_or_zero(explicit_value(args.last()))
    }
}

fn value_of_args(args: &[AddArg], from: usize, kind: FieldKind, little_endian: bool) -> (value:
    FieldValue)
    requires
        from <= args@.len(),
        forall|i: int| 0 <= i < args@.len() ==> (#[trigger] args@[i]).wf(),
    ensures
        value@ == field_value(args@.skip(from as int), kind, little_endian),
{
    let n: usize = args.len() - from;
    if n == 0 {
        return FieldValue::UInt(0);
    }
    if n == 1 {
        if let AddArg::Range(range) = &args[from] {
            return value_from_tvbrange(range, kind, little_endian);
        }
    }
    let ghost rest = args@.skip(from as int);
    assert(rest.last() == args@[args@.len() - 1]);
    match value_from_lua(&args[args.len() - 1]) {
        Some(value) => value,
        None => {
            if n == 2 {
                if let AddArg::Range(range) = &args[from] {
                    return value_from_tvbrange(range, kind, false);
                }
            }
            FieldValue::UInt(0)
        },
    }
}

/// Why an `add` call cannot be served.
#[derive(Clone, Copy, Debug, PartialEq, Eq, Structural)]
pub enum AddError {
    MissingArgument,
}

impl AddError {
    pub fn message(&self) -> (text: &'static str)
        ensures
            text@ == "TreeItem:add: missing field/proto argument"@,
    {
        "TreeItem:add: missing field/proto argument"
    }
}

impl TreeItem {
    /// The handle to the outermost level.
    pub fn new() -> (item: TreeItem)
        ensures
            item.path@ == Seq::<usize>::empty(),
    {
        TreeItem { path: Vec::new() }
    }

    fn copied(&self) -> (item: TreeItem)
        ensures
            item.path@ == self.path@,
    {
        let mut path: Vec<usize> = Vec::new();
        let mut i: usize = 0;
        while i < self.path.len()
            invariant
                i <= self.path@.len(),
                path@ =~= self.path@.take(i as int),
            decreases self.path@.len() - i,
        {
            path.push(self.path[i]);
            i += 1;
        }
        assert(path@ =~= self.path@);
        TreeItem { path }
    }

    /// Records a value at this handle's level.
    pub fn record(&self, fields: &mut FrameFields, name: &str, value: FieldValue)
        requires
            old(fields)@.has_node(self.path@),
        ensures
            final(fields)@ == old(fields)@.record(self.path@, name@, value@),
    {
        assert(self.path@.skip(0) =~= self.path@);
        record_at(fields, &self.path, 0, name, value);
    }

    /// Notes a complaint about malformed data at this handle's level. One without a message counts
    /// as an empty one.
    pub fn add_expert_info(&self, fields: &mut FrameFields, message: Option<String>)
        requires
            old(fields)@.has_node(self.path@),
        ensures
            final(fields)@ == old(fields)@.complain(
                self.path@,
                match message {
                    Some(message) => message@,
                    None => Seq::empty(),
                },
            ),
    {
        assert(self.path@.skip(0) =~= self.path@);
        let message = match message {
            Some(message) => message,
            None => String::new(),
        };
        complain_at(fields, &self.path, 0, message);
    }

    /// `tree:add(..)` and `tree:add_le(..)`, by the shape of the arguments:
    /// a field and a range take the value from the range;
    /// a field, a range and a value, or a field and a value, record the value;
    /// a `Proto` opens a subtree named after it.
    /// Returns the handle to go on with: the subtree's, or this one. A first argument that is
    /// neither changes nothing.
    pub fn add(&self, fields: &mut FrameFields, args: &[AddArg], little_endian: bool) -> (item: Result<
        TreeItem,
        AddError,
    >)
        requires
            old(fields)@.has_node(self.path@),
            forall|i: int| 0 <= i < args@.len() ==> (#[trigger] args@[i]).wf(),
        ensures
            item is Err <==> args@.len() == 0,
            item matches Ok(item) ==> match args@[0] {
                AddArg::Field(def) => {
                    &&& final(fields)@ == old(fields)@.record(
                        self.path@,
                        def.name@,
                        field_value(args@.skip(1), def.kind, little_endian),
                    )
                    &&& item.path@ == self.path@
                },
                AddArg::Proto(name) => {
                    &&& final(fields)@ == old(fields)@.record(
                        self.path@,
                        name@,
                        ValueModel::Tree(FieldsModel::empty()),
                    )
                    &&& item.path@ == self.path@.push(
                        old(fields)@.node(self.path@).entries.len() as usize,
                    )
                },
                _ => final(fields)@ == old(fields)@ && item.path@ == self.path@,
            },
            item is Err ==> final(fields)@ == old(fields)@,
            item matches Ok(item) ==> final(fields)@.has_node(item.path@),
    {
        if args.len() == 0 {
            return Err(AddError::MissingArgument);
        }
        match &args[0] {
            AddArg::Field(def) => {
                let value = value_of_args(args, 1, def.kind, little_endian);
                proof {
                    lemma_record_keeps_nodes(
                        fields@,
                        self.path@,
                        def.name@,
                        value@,
                        self.path@,
                    );
                }
                self.record(fields, def.name.as_str(), value);
                Ok(self.copied())
            },
            AddArg::Proto(name) => {
                assert(self.path@.skip(0) =~= self.path@);
                let place: usize = entries_at(fields, &self.path, 0);
                let child = FieldValue::Tree(FrameFields::default());
                proof {
                    lemma_record_opens_node(fields@, self.path@, name@, FieldsModel::empty());
                }
                self.record(fields, name.as_str(), child);
                let mut item = self.copied();
                item.path.push(place);
                Ok(item)
            },
            _ => Ok(self.copied()),
        }
    }
}

/// Recording leaves every level where it was.
proof fn lemma_record_keeps_nodes(
    f: FieldsModel,
    path: Seq<usize>,
    name: Seq<char>,
    value: ValueModel,
    other: Seq<usize>,
)
    requires
        f.has_node(path),
        f.has_node(other),
    ensures
        f.record(path, name, value).has_node(other),
    decreases other.len(),
{
    let after = f.record(path, name, value);
    if other.len() > 0 {
        let i = other[0] as int;
        if path.len() == 0 {
            assert(after.entries[i] == f.entries[i]);
        } else if path[0] == other[0] {
            let child = f.entries[i].1->Tree_0;
            lemma_record_keeps_nodes(child, path.drop_first(), name, value, other.drop_first());
            assert(after.entries[i].1 == ValueModel::Tree(
                child.record(path.drop_first(), name, value),
            ));
        } else {
            assert(after.entries[i] == f.entries[i]);
        }
    }
}

/// A subtree that was just recorded can be reached at its place.
proof fn lemma_record_opens_node(
    f: FieldsModel,
    path: Seq<usize>,
    name: Seq<char>,
    child: FieldsModel,
)
    requires
        f.has_node(path),
        f.node(path).entries.len() <= usize::MAX,
    ensures
        f.record(path, name, ValueModel::Tree(child)).has_node(
            path.push(f.node(path).entries.len() as usize),
        ),
    decreases path.len(),
{
    let after = f.record(path, name, ValueModel::Tree(child));
    let place = f.node(path).entries.len() as usize;
    let longer = path.push(place);
    if path.len() == 0 {
        assert(longer.drop_first() =~= Seq::empty());
        assert(after.entries[place as int].1 == ValueModel::Tree(child));
        assert(child.has_node(Seq::empty()));
    } else {
        let i = path[0] as int;
        let below = f.entries[i].1->Tree_0;
        lemma_record_opens_node(below, path.drop_first(), name, child);
        assert(longer.drop_first() =~= path.drop_first().push(place));
        assert(after.entries[i].1 == ValueModel::Tree(
            below.record(path.drop_first(), name, ValueModel::Tree(child)),
        ));
    }
}

/// What a field takes its value from: a range alone, by the field's kind and in the byte order
/// asked for; a value given by itself, whatever stands before it; nothing, which counts as zero. A
/// range before something that gives no value is read with the most significant byte first.
pub proof fn law_value_is_given_or_read(
    range: TvbRange,
    given: AddArg,
    other: AddArg,
    more: Seq<AddArg>,
    kind: FieldKind,
    little_endian: bool,
)
    requires
        explicit_value(given) is Some,
    ensures
        ({
            let bytes = range.content();
            let alone = field_value(seq![AddArg::Range(range)], kind, little_endian);
            &&& kind is Bytes ==> alone == ValueModel::Bytes(bytes)
            &&& kind is Str ==> alone == ValueModel::Str(utf8_lossy(bytes))
            &&& kind is UInt && 1 <= bytes.len() <= 8 ==> alone == ValueModel::UInt(
                uint_of(bytes, little_endian)->0 as u64,
            )
            &&& kind is UInt && !(1 <= bytes.len() <= 8) ==> alone == ValueModel::UInt(0)
        }),
        field_value(seq![given], kind, little_endian) == explicit_value(given)->0,
        field_value(seq![AddArg::Range(range), given], kind, little_endian) == explicit_value(
            given,
        )->0,
        field_value(Seq::empty(), kind, little_endian) == ValueModel::UInt(0),
        explicit_value(other) is None ==> field_value(
            seq![AddArg::Range(range), other],
            kind,
            little_endian,
        ) == field_value(seq![AddArg::Range(range)], kind, false),
        explicit_value(other) is None && !(other is Range) ==> field_value(
            seq![other],
            kind,
            little_endian,
        ) == ValueModel::UInt(0),
        more.len() > 0 ==> field_value(more.push(given), kind, little_endian) == explicit_value(
            given,
        )->0,
{
    assert(!(given is Range));
    assert(more.push(given).last() == given);
}

/// The value that an argument gives by itself: a text is a text, and an integer is itself, a
/// negative one modulo 2^64.
pub proof fn law_given_value_is_itself(i: i64, n: u64, s: String, u: UInt64)
    ensures
        i >= 0 ==> explicit_value(AddArg::Integer(i)) == Some(ValueModel::UInt(i as u64)),
        i < 0 ==> explicit_value(AddArg::Integer(i)) == Some(
            ValueModel::UInt((0x1_0000_0000_0000_0000 + i) as u64),
        ),
        explicit_value(AddArg::Number(n)) == Some(ValueModel::UInt(n)),
        explicit_value(AddArg::Text(s)) == Some(ValueModel::Str(s@)),
        explicit_value(AddArg::UInt64(u)) == Some(ValueModel::UInt(u.0)),
{
}

/// What is recorded at a level is the last entry there; the level's other entries, and all of the
/// tree outside the way to it, stay as they were.
pub proof fn law_recorded_where_the_path_leads(
    fields: FieldsModel,
    path: Seq<usize>,
    name: Seq<char>,
    value: ValueModel,
    j: int,
)
    requires
        fields.has_node(path),
    ensures
        fields.record(path, name, value).has_node(path),
        fields.record(path, name, value).node(path).entries == fields.node(path).entries.push(
            (name, value),
        ),
        fields.record(path, name, value).node(path).protocol == fields.node(path).protocol,
        fields.record(path, name, value).node(path).info == fields.node(path).info,
        fields.record(path, name, value).node(path).malformed == fields.node(path).malformed,
        path.len() > 0 && 0 <= j < fields.entries.len() ==> fields.record(
            path,
            name,
            value,
        ).entries[j].0 == fields.entries[j].0,
        path.len() > 0 && 0 <= j < fields.entries.len() && j != path[0] ==> fields.record(
            path,
            name,
            value,
        ).entries[j] == fields.entries[j],
        path.len() > 0 ==> fields.record(path, name, value).entries.len() == fields.entries.len(),
{
    let node = fields.node(path);
    let new = FieldsModel { entries: node.entries.push((name, value)), ..node };
    lemma_node_replaced(fields, path, new);
}

/// A complaint is noted at the level it is about, behind those noted there before, and the entries
/// there stay as they were.
pub proof fn law_complaint_is_noted_at_its_level(
    fields: FieldsModel,
    path: Seq<usize>,
    message: Seq<char>,
)
    requires
        fields.has_node(path),
    ensures
        fields.complain(path, message).node(path).malformed == fields.node(path).malformed.push(
            message,
        ),
        fields.complain(path, message).node(path).entries == fields.node(path).entries,
{
    let node = fields.node(path);
    let new = FieldsModel { malformed: node.malformed.push(message), ..node };
    lemma_node_replaced(fields, path, new);
}

proof fn lemma_node_replaced(fields: FieldsModel, path: Seq<usize>, new: FieldsModel)
    requires
        fields.has_node(path),
    ensures
        fields.with_node(path, new).has_node(path),
        fields.with_node(path, new).node(path) == new,
    decreases path.len(),
{
    if path.len() > 0 {
        let child = fields.entries[path[0] as int].1->Tree_0;
        lemma_node_replaced(child, path.drop_first(), new);
    }
}

} // verus!
