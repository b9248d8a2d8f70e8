//! Commands: a decoded array checked against the known command shapes, and
//! applied to the store.
use vstd::prelude::*;
use vstd::utf8::{valid_utf8, decode_utf8};
use crate::frame::{RespError, RespFrame, RespArray, RespMap, RespNull, SimpleString, Value, map_get};
use crate::backend::{Backend, StoreView, table_get, table_set};
use crate::buffer::string_from_utf8;
use crate::wire::{map_insert, lower_bound};
use crate::backend::table_pos;
use crate::frame::{key_lt, lemma_bytes_lt_irreflexive, lemma_lower_bound_at, lemma_lower_bound_props};

verus! {

#[derive(Debug, PartialEq, Eq, Structural)]
pub enum CommandError {
    /// The frame is not an array, or its first element is not a bulk string
    /// naming the command.
    InvalidCommand,
    /// Wrong number or wrong kind of arguments.
    InvalidArgument,
    RespError(RespError),
    /// A key or field that is not UTF-8.
    Utf8Error,
}

#[derive(Debug)]
pub struct Unrecognized;

#[derive(Debug)]
pub struct Get {
    pub key: String,
}

#[derive(Debug)]
pub struct SetValue {
    pub key: String,
    pub value: RespFrame,
}

#[derive(Debug)]
pub struct HGet {
    pub key: String,
    pub field: String,
}

#[derive(Debug)]
pub struct HSet {
    pub key: String,
    pub field: String,
    pub value: RespFrame,
}

#[derive(Debug)]
pub struct HGetAll {
    pub key: String,
}

#[derive(Debug)]
pub enum Command {
    Get(Get),
    SetValue(SetValue),
    HGet(HGet),
    HSet(HSet),
    HGetAll(HGetAll),
    Unrecognized(Unrecognized),
}

/// The model of a command.
pub enum CommandView {
    Get(Seq<char>),
    SetValue(Seq<char>, Value),
    HGet(Seq<char>, Seq<char>),
    HSet(Seq<char>, Seq<char>, Value),
    HGetAll(Seq<char>),
    Unrecognized,
}

impl Command {
    pub open spec fn view(&self) -> CommandView {
        match self {
            Command::Get(c) => CommandView::Get(c.key@),
            Command::SetValue(c) => CommandView::SetValue(c.key@, c.value.view()),
            Command::HGet(c) => CommandView::HGet(c.key@, c.field@),
            Command::HSet(c) => CommandView::HSet(c.key@, c.field@, c.value.view()),
            Command::HGetAll(c) => CommandView::HGetAll(c.key@),
            Command::Unrecognized(_) => CommandView::Unrecognized,
        }
    }
}

pub open spec fn name_get() -> Seq<u8> {
    seq![103u8, 101u8, 116u8]
}

pub open spec fn name_set() -> Seq<u8> {
    seq![115u8, 101u8, 116u8]
}

pub open spec fn name_hget() -> Seq<u8> {
    seq![104u8, 103u8, 101u8, 116u8]
}

pub open spec fn name_hset() -> Seq<u8> {
    seq![104u8, 115u8, 101u8, 116u8]
}

pub open spec fn name_hgetall() -> Seq<u8> {
    seq![104u8, 103u8, 101u8, 116u8, 97u8, 108u8, 108u8]
}

pub open spec fn lower_byte(b: u8) -> u8 {
    if 65 <= b <= 90 { (b + 32) as u8 } else { b }
}

/// ASCII letters in lower case, every other byte as it is.
pub open spec fn ascii_lower(s: Seq<u8>) -> Seq<u8> {
    Seq::new(s.len(), |i: int| lower_byte(s[i]))
}

/// The arity and name check: `n_args` arguments after a bulk string whose
/// lower-cased bytes are `name`.
pub open spec fn shape_check(xs: Seq<Value>, name: Seq<u8>, n_args: nat) -> Result<(), CommandError> {
    if xs.len() != n_args + 1 {
        Err(CommandError::InvalidArgument)
    } else {
        match xs[0] {
            Value::BulkString(b) => if ascii_lower(b) == name { Ok(()) } else { Err(CommandError::InvalidCommand) },
            _ => Err(CommandError::InvalidCommand),
        }
    }
}

pub open spec fn is_bulk(v: Value) -> bool {
    v is BulkString
}

/// The text of a bulk string argument.
pub open spec fn text_of(v: Value) -> Result<Seq<char>, CommandError> {
    match v {
        Value::BulkString(b) => if valid_utf8(b) { Ok(decode_utf8(b)) } else { Err(CommandError::Utf8Error) },
        _ => Err(CommandError::InvalidArgument),
    }
}

pub open spec fn get_spec(xs: Seq<Value>) -> Result<CommandView, CommandError> {
    match shape_check(xs, name_get(), 1) {
        Err(e) => Err(e),
        Ok(_) => match text_of(xs[1]) {
            Err(e) => Err(e),
            Ok(k) => Ok(CommandView::Get(k)),
        },
    }
}

pub open spec fn set_spec(xs: Seq<Value>) -> Result<CommandView, CommandError> {
    match shape_check(xs, name_set(), 2) {
        Err(e) => Err(e),
        Ok(_) => match text_of(xs[1]) {
            Err(e) => Err(e),
            Ok(k) => Ok(CommandView::SetValue(k, xs[2])),
        },
    }
}

pub open spec fn hget_spec(xs: Seq<Value>) -> Result<CommandView, CommandError> {
    match shape_check(xs, name_hget(), 2) {
        Err(e) => Err(e),
        Ok(_) => if !is_bulk(xs[1]) || !is_bulk(xs[2]) {
            Err(CommandError::InvalidArgument)
        } else {
            match (text_of(xs[1]), text_of(xs[2])) {
                (Err(e), _) => Err(e),
                (_, Err(e)) => Err(e),
                (Ok(k), Ok(f)) => Ok(CommandView::HGet(k, f)),
            }
        },
    }
}

pub open spec fn hset_spec(xs: Seq<Value>) -> Result<CommandView, CommandError> {
    match shape_check(xs, name_hset(), 3) {
        Err(e) => Err(e),
        Ok(_) => if !is_bulk(xs[1]) || !is_bulk(xs[2]) {
            Err(CommandError::InvalidArgument)
        } else {
            match (text_of(xs[1]), text_of(xs[2])) {
                (Err(e), _) => Err(e),
                (_, Err(e)) => Err(e),
                (Ok(k), Ok(f)) => Ok(CommandView::HSet(k, f, xs[3])),
            }
        },
    }
}

pub open spec fn hgetall_spec(xs: Seq<Value>) -> Result<CommandView, CommandError> {
    match shape_check(xs, name_hgetall(), 1) {
        Err(e) => Err(e),
        Ok(_) => match text_of(xs[1]) {
            Err(e) => Err(e),
            Ok(k) => Ok(CommandView::HGetAll(k)),
        },
    }
}

/// What an array of frames is as a command: its first element, a bulk
/// string, names it (matched exactly); an unknown name is `Unrecognized`.
pub open spec fn command_spec(xs: Seq<Value>) -> Result<CommandView, CommandError> {
    if xs.len() == 0 {
        Err(CommandError::InvalidCommand)
    } else {
        match xs[0] {
            Value::BulkString(b) => if b == name_get() {
                get_spec(xs)
            } else if b == name_set() {
                set_spec(xs)
            } else if b == name_hget() {
                hget_spec(xs)
            } else if b == name_hset() {
                hset_spec(xs)
            } else if b == name_hgetall() {
                hgetall_spec(xs)
            } else {
                Ok(CommandView::Unrecognized)
            },
            _ => Err(CommandError::InvalidCommand),
        }
    }
}

/// A frame as a command: it must be an array.
pub open spec fn frame_command(v: Value) -> Result<CommandView, CommandError> {
    match v {
        Value::Array(xs) => command_spec(xs),
        _ => Err(CommandError::InvalidCommand),
    }
}

/// The elements of an array, as models.
pub open spec fn array_view(a: RespArray) -> Seq<Value> {
    crate::frame::frames_seq_view(a.0@)
}

pub open spec fn ok_value() -> Value {
    Value::SimpleString(seq!['O', 'K'])
}

/// What a command returns on a store.
pub open spec fn exec_result(st: StoreView, c: CommandView) -> Value {
    match c {
        CommandView::Get(k) => match map_get(st.values, k) {
            Some(v) => v,
            None => Value::Null,
        },
        CommandView::HGet(k, f) => match table_get(st.tables, k) {
            Some(t) => match map_get(t, f) {
                Some(v) => v,
                None => Value::Null,
            },
            None => Value::Null,
        },
        CommandView::HGetAll(k) => match table_get(st.tables, k) {
            Some(t) => Value::RespMap(t),
            None => Value::Array(Seq::empty()),
        },
        _ => ok_value(),
    }
}

/// What a command leaves in the store.
pub open spec fn exec_state(st: StoreView, c: CommandView) -> StoreView {
    match c {
        CommandView::SetValue(k, v) => StoreView { values: map_insert(st.values, k, v), tables: st.tables },
        CommandView::HSet(k, f, v) => StoreView { values: st.values, tables: table_set(st.tables, k, f, v) },
        _ => st,
    }
}

/// The reply `OK`.
pub fn resp_ok() -> (r: RespFrame)
    ensures
        r.view() == ok_value(),
{
    proof {
        reveal_strlit("OK");
    }
    let r = RespFrame::SimpleString(SimpleString::new("OK"));
    assert(r.view() == Value::SimpleString("OK"@));
    assert("OK"@ =~= seq!['O', 'K']);
    r
}

fn lower(b: u8) -> (r: u8)
    ensures
        r == lower_byte(b),
{
    if 65 <= b && b <= 90 { b + 32 } else { b }
}

/// Whether `b`, lower-cased, is `name`.
fn name_matches(b: &Vec<u8>, name: &[u8]) -> (r: bool)
    ensures
        r == (ascii_lower(b@) == name@),
{
    if b.len() != name.len() {
        assert(ascii_lower(b@).len() != name@.len());
        return false;
    }
    let mut i: usize = 0;
    while i < b.len()
        invariant
            i <= b@.len() == name@.len(),
            forall|j: int| 0 <= j < i ==> lower_byte(b@[j]) == name@[j],
        decreases b@.len() - i,
    {
        if lower(b[i]) != name[i] {
            assert(ascii_lower(b@)[i as int] != name@[i as int]);
            return false;
        }
        i += 1;
    }
    assert(ascii_lower(b@) =~= name@);
    true
}

fn bytes_equal(b: &Vec<u8>, name: &[u8]) -> (r: bool)
    ensures
        r == (b@ == name@),
{
    if b.len() != name.len() {
        return false;
    }
    let mut i: usize = 0;
    while i < b.len()
        invariant
            i <= b@.len() == name@.len(),
            forall|j: int| 0 <= j < i ==> b@[j] == name@[j],
        decreases b@.len() - i,
    {
        if b[i] != name[i] {
            return false;
        }
        i += 1;
    }
    assert(b@ =~= name@);
    true
}

/// Checks the number of arguments, then the command name (in any case).
pub fn validate_command(value: &RespArray, name: &[u8], n_args: usize) -> (r: Result<(), CommandError>)
    ensures
        r == shape_check(array_view(*value), name@, n_args as nat),
{
    let len = value.0.len();
    if len == 0 || len - 1 != n_args {
        return Err(CommandError::InvalidArgument);
    }
    match &value.0[0] {
        RespFrame::BulkString(b) => {
            if name_matches(&b.0, name) {
                Ok(())
            } else {
                Err(CommandError::InvalidCommand)
            }
        },
        _ => Err(CommandError::InvalidCommand),
    }
}

/// The elements from `start` on (none where `start` is past the end).
pub fn extract_args(value: RespArray, start: usize) -> (r: Vec<RespFrame>)
    ensures
        r@ == (if start <= value.0@.len() { value.0@.skip(start as int) } else { Seq::empty() }),
{
    let mut v = value.0;
    if start > v.len() {
        return Vec::new();
    }
    v.split_off(start)
}

/// A text argument: a bulk string holding UTF-8.
fn text_arg(f: RespFrame) -> (r: Result<String, CommandError>)
    ensures
        match r {
            Ok(s) => text_of(f.view()) == Ok::<Seq<char>, CommandError>(s@),
            Err(e) => text_of(f.view()) == Err::<Seq<char>, CommandError>(e),
        },
{
    match f {
        RespFrame::BulkString(b) => match string_from_utf8(b.0) {
            Some(s) => Ok(s),
            None => Err(CommandError::Utf8Error),
        },
        _ => Err(CommandError::InvalidArgument),
    }
}

fn is_bulk_frame(f: &RespFrame) -> (r: bool)
    ensures
        r == is_bulk(f.view()),
{
    match f {
        RespFrame::BulkString(_) => true,
        _ => false,
    }
}

proof fn lemma_args(value: RespArray, args: Seq<RespFrame>, i: int)
    requires
        value.0@.len() >= 1,
        args == value.0@.skip(1),
        0 <= i < args.len(),
    ensures
        args[i].view() == array_view(value)[i + 1],
{
    assert(args[i] == value.0@[i + 1]);
}

impl Get {
    pub fn try_from(value: RespArray) -> (r: Result<Get, CommandError>)
        ensures
            match r {
                Ok(c) => get_spec(array_view(value)) == Ok::<CommandView, CommandError>(CommandView::Get(c.key@)),
                Err(e) => get_spec(array_view(value)) == Err::<CommandView, CommandError>(e),
            },
    {
        let ghost xs = array_view(value);
        let name: [u8; 3] = [103u8, 101u8, 116u8];
        assert(name@ =~= name_get());
        match validate_command(&value, &name, 1) {
            Ok(_) => {},
            Err(e) => return Err(e),
        }
        let mut args = extract_args(value, 1);
        proof { lemma_args(value, args@, 0); }
        let key_frame = args.pop().unwrap();
        match text_arg(key_frame) {
            Ok(key) => Ok(Get { key }),
            Err(e) => Err(e),
        }
    }

    pub fn execute(self, backend: &Backend) -> (r: RespFrame)
        ensures
            r.view() == exec_result(backend.view(), CommandView::Get(self.key@)),
    {
        match backend.get(&self.key) {
            Some(value) => value,
            None => RespFrame::Null(RespNull),
        }
    }
}

impl SetValue {
    pub fn try_from(value: RespArray) -> (r: Result<SetValue, CommandError>)
        ensures
            match r {
                Ok(c) => set_spec(array_view(value)) == Ok::<CommandView, CommandError>(CommandView::SetValue(c.key@, c.value.view())),
                Err(e) => set_spec(array_view(value)) == Err::<CommandView, CommandError>(e),
            },
    {
        let ghost xs = array_view(value);
        let name: [u8; 3] = [115u8, 101u8, 116u8];
        assert(name@ =~= name_set());
        match validate_command(&value, &name, 2) {
            Ok(_) => {},
            Err(e) => return Err(e),
        }
        let mut args = extract_args(value, 1);
        proof {
            lemma_args(value, args@, 0);
            lemma_args(value, args@, 1);
        }
        let val = args.pop().unwrap();
        let key_frame = args.pop().unwrap();
        match text_arg(key_frame) {
            Ok(key) => Ok(SetValue { key, value: val }),
            Err(e) => Err(e),
        }
    }

    pub fn execute(self, backend: &mut Backend) -> (r: RespFrame)
        ensures
            r.view() == exec_result(old(backend).view(), CommandView::SetValue(self.key@, self.value.view())),
            final(backend).view() == exec_state(old(backend).view(), CommandView::SetValue(self.key@, self.value.view())),
    {
        backend.set(self.key, self.value);
        resp_ok()
    }
}

impl HGet {
    pub fn try_from(value: RespArray) -> (r: Result<HGet, CommandError>)
        ensures
            match r {
                Ok(c) => hget_spec(array_view(value)) == Ok::<CommandView, CommandError>(CommandView::HGet(c.key@, c.field@)),
                Err(e) => hget_spec(array_view(value)) == Err::<CommandView, CommandError>(e),
            },
    {
        let ghost xs = array_view(value);
        let name: [u8; 4] = [104u8, 103u8, 101u8, 116u8];
        assert(name@ =~= name_hget());
        match validate_command(&value, &name, 2) {
            Ok(_) => {},
            Err(e) => return Err(e),
        }
        let mut args = extract_args(value, 1);
        proof {
            lemma_args(value, args@, 0);
            lemma_args(value, args@, 1);
        }
        let field_frame = args.pop().unwrap();
        let key_frame = args.pop().unwrap();
        if !is_bulk_frame(&key_frame) || !is_bulk_frame(&field_frame) {
            return Err(CommandError::InvalidArgument);
        }
        let key = match text_arg(key_frame) {
            Ok(k) => k,
            Err(e) => return Err(e),
        };
        match text_arg(field_frame) {
            Ok(field) => Ok(HGet { key, field }),
            Err(e) => Err(e),
        }
    }

    pub fn execute(self, backend: &Backend) -> (r: RespFrame)
        ensures
            r.view() == exec_result(backend.view(), CommandView::HGet(self.key@, self.field@)),
    {
        match backend.hget(&self.key, &self.field) {
            Some(value) => value,
            None => RespFrame::Null(RespNull),
        }
    }
}

impl HSet {
    pub fn try_from(value: RespArray) -> (r: Result<HSet, CommandError>)
        ensures
            match r {
                Ok(c) => hset_spec(array_view(value)) == Ok::<CommandView, CommandError>(CommandView::HSet(c.key@, c.field@, c.value.view())),
                Err(e) => hset_spec(array_view(value)) == Err::<CommandView, CommandError>(e),
            },
    {
        let ghost xs = array_view(value);
        let name: [u8; 4] = [104u8, 115u8, 101u8, 116u8];
        assert(name@ =~= name_hset());
        match validate_command(&value, &name, 3) {
            Ok(_) => {},
            Err(e) => return Err(e),
        }
        let mut args = extract_args(value, 1);
        proof {
            lemma_args(value, args@, 0);
            lemma_args(value, args@, 1);
            lemma_args(value, args@, 2);
        }
        let val = args.pop().unwrap();
        let field_frame = args.pop().unwrap();
        let key_frame = args.pop().unwrap();
        if !is_bulk_frame(&key_frame) || !is_bulk_frame(&field_frame) {
            return Err(CommandError::InvalidArgument);
        }
        let key = match text_arg(key_frame) {
            Ok(k) => k,
            Err(e) => return Err(e),
        };
        match text_arg(field_frame) {
            Ok(field) => Ok(HSet { key, field, value: val }),
            Err(e) => Err(e),
        }
    }

    pub fn execute(self, backend: &mut Backend) -> (r: RespFrame)
        ensures
            r.view() == exec_result(old(backend).view(), CommandView::HSet(self.key@, self.field@, self.value.view())),
            final(backend).view() == exec_state(old(backend).view(), CommandView::HSet(self.key@, self.field@, self.value.view())),
    {
        backend.hset(self.key, self.field, self.value);
        resp_ok()
    }
}

impl HGetAll {
    pub fn try_from(value: RespArray) -> (r: Result<HGetAll, CommandError>)
        ensures
            match r {
                Ok(c) => hgetall_spec(array_view(value)) == Ok::<CommandView, CommandError>(CommandView::HGetAll(c.key@)),
                Err(e) => hgetall_spec(array_view(value)) == Err::<CommandView, CommandError>(e),
            },
    {
        let ghost xs = array_view(value);
        let name: [u8; 7] = [104u8, 103u8, 101u8, 116u8, 97u8, 108u8, 108u8];
        assert(name@ =~= name_hgetall());
        match validate_command(&value, &name, 1) {
            Ok(_) => {},
            Err(e) => return Err(e),
        }
        let mut args = extract_args(value, 1);
        proof { lemma_args(value, args@, 0); }
        let key_frame = args.pop().unwrap();
        match text_arg(key_frame) {
            Ok(key) => Ok(HGetAll { key }),
            Err(e) => Err(e),
        }
    }

    /// The field table of the key as a map; an empty array where the key has
    /// no table.
    pub fn execute(self, backend: &Backend) -> (r: RespFrame)
        ensures
            r.view() == exec_result(backend.view(), CommandView::HGetAll(self.key@)),
    {
        match backend.hgetall(&self.key) {
            Some(m) => {
                let r = RespFrame::RespMap(m);
                let ghost es = match r.view() { Value::RespMap(es) => es, _ => Seq::empty() };
                assert(es =~= m.entries_view());
                r
            },
            None => {
                let r = RespFrame::Array(RespArray(Vec::new()));
                let ghost xs = match r.view() { Value::Array(xs) => xs, _ => Seq::empty() };
                assert(xs =~= Seq::<Value>::empty());
                r
            },
        }
    }
}

impl Unrecognized {
    /// Always `OK`; the store is not touched.
    pub fn execute(self, backend: &Backend) -> (r: RespFrame)
        ensures
            r.view() == exec_result(backend.view(), CommandView::Unrecognized),
    {
        resp_ok()
    }
}

impl Command {
    /// Classifies an array by its first element.
    pub fn try_from_array(value: RespArray) -> (r: Result<Command, CommandError>)
        ensures
            match r {
                Ok(c) => command_spec(array_view(value)) == Ok::<CommandView, CommandError>(c.view()),
                Err(e) => command_spec(array_view(value)) == Err::<CommandView, CommandError>(e),
            },
    {
        let ghost xs = array_view(value);
        if value.0.len() == 0 {
            return Err(CommandError::InvalidCommand);
        }
        let kind: u8 = match &value.0[0] {
            RespFrame::BulkString(b) => {
                let n_get: [u8; 3] = [103u8, 101u8, 116u8];
                let n_set: [u8; 3] = [115u8, 101u8, 116u8];
                let n_hget: [u8; 4] = [104u8, 103u8, 101u8, 116u8];
                let n_hset: [u8; 4] = [104u8, 115u8, 101u8, 116u8];
                let n_hgetall: [u8; 7] = [104u8, 103u8, 101u8, 116u8, 97u8, 108u8, 108u8];
                assert(n_get@ =~= name_get());
                assert(n_set@ =~= name_set());
                assert(n_hget@ =~= name_hget());
                assert(n_hset@ =~= name_hset());
                assert(n_hgetall@ =~= name_hgetall());
                if bytes_equal(&b.0, &n_get) {
                    0
                } else if bytes_equal(&b.0, &n_set) {
                    1
                } else if bytes_equal(&b.0, &n_hget) {
                    2
                } else if bytes_equal(&b.0, &n_hset) {
                    3
                } else if bytes_equal(&b.0, &n_hgetall) {
                    4
                } else {
                    5
                }
            },
            _ => return Err(CommandError::InvalidCommand),
        };
        if kind == 0 {
            match Get::try_from(value) {
                Ok(c) => Ok(Command::Get(c)),
                Err(e) => Err(e),
            }
        } else if kind == 1 {
            match SetValue::try_from(value) {
                Ok(c) => Ok(Command::SetValue(c)),
                Err(e) => Err(e),
            }
        } else if kind == 2 {
            match HGet::try_from(value) {
                Ok(c) => Ok(Command::HGet(c)),
                Err(e) => Err(e),
            }
        } else if kind == 3 {
            match HSet::try_from(value) {
                Ok(c) => Ok(Command::HSet(c)),
                Err(e) => Err(e),
            }
        } else if kind == 4 {
            match HGetAll::try_from(value) {
                Ok(c) => Ok(Command::HGetAll(c)),
                Err(e) => Err(e),
            }
        } else {
            Ok(Command::Unrecognized(Unrecognized))
        }
    }

    /// A frame as a command: it must be an array.
    pub fn try_from(value: RespFrame) -> (r: Result<Command, CommandError>)
        ensures
            match r {
                Ok(c) => frame_command(value.view()) == Ok::<CommandView, CommandError>(c.view()),
                Err(e) => frame_command(value.view()) == Err::<CommandView, CommandError>(e),
            },
    {
        match value {
            RespFrame::Array(a) => {
                let ghost xs = match RespFrame::Array(a).view() { Value::Array(xs) => xs, _ => Seq::empty() };
                assert(xs =~= array_view(a));
                Command::try_from_array(a)
            },
            _ => Err(CommandError::InvalidCommand),
        }
    }

    /// Applies the command to the store and returns the reply.
    pub fn execute(self, backend: &mut Backend) -> (r: RespFrame)
        ensures
            r.view() == exec_result(old(backend).view(), self.view()),
            final(backend).view() == exec_state(old(backend).view(), self.view()),
    {
        match self {
            Command::Get(c) => c.execute(backend),
            Command::SetValue(c) => c.execute(backend),
            Command::HGet(c) => c.execute(backend),
            Command::HSet(c) => c.execute(backend),
            Command::HGetAll(c) => c.execute(backend),
            Command::Unrecognized(c) => c.execute(backend),
        }
    }
}

/// A key reads back what was last inserted under it.
pub proof fn lemma_get_after_insert(es: Seq<(Seq<char>, Value)>, k: Seq<char>, v: Value)
    ensures
        map_get(map_insert(es, k, v), k) == Some(v),
{
    let p = lower_bound(es, k, 0);
    lemma_lower_bound_props(es, k, 0);
    let es2 = map_insert(es, k, v);
    lemma_bytes_lt_irreflexive(vstd::utf8::encode_utf8(k));
    assert(es2[p] == (k, v));
    assert forall|j: int| 0 <= j < p implies key_lt(#[trigger] es2[j].0, k) by {
        assert(es2[j] == es[j]);
    }
    lemma_lower_bound_at(es2, k, 0, p);
}

proof fn lemma_table_pos_props(ts: Seq<(Seq<char>, Seq<(Seq<char>, Value)>)>, k: Seq<char>, i: int)
    requires
        0 <= i <= ts.len(),
    ensures
        i <= table_pos(ts, k, i) <= ts.len(),
        forall|j: int| i <= j < table_pos(ts, k, i) ==> (#[trigger] ts[j]).0 != k,
        table_pos(ts, k, i) < ts.len() ==> ts[table_pos(ts, k, i)].0 == k,
    decreases ts.len() - i,
{
    if i < ts.len() {
        lemma_table_pos_props(ts, k, i + 1);
    }
}

proof fn lemma_table_pos_at(ts: Seq<(Seq<char>, Seq<(Seq<char>, Value)>)>, k: Seq<char>, i: int, p: int)
    requires
        0 <= i <= p < ts.len(),
        forall|j: int| i <= j < p ==> (#[trigger] ts[j]).0 != k,
        ts[p].0 == k,
    ensures
        table_pos(ts, k, i) == p,
    decreases p - i,
{
    if i < p {
        lemma_table_pos_at(ts, k, i + 1, p);
    }
}

/// The table of a key after a field is set in it.
pub proof fn lemma_table_after_set(ts: Seq<(Seq<char>, Seq<(Seq<char>, Value)>)>, k: Seq<char>, f: Seq<char>, v: Value)
    ensures
        table_get(table_set(ts, k, f, v), k) == Some(map_insert(
            match table_get(ts, k) { Some(t) => t, None => Seq::empty() }, f, v)),
{
    lemma_table_pos_props(ts, k, 0);
    let p = table_pos(ts, k, 0);
    let ts2 = table_set(ts, k, f, v);
    assert forall|j: int| 0 <= j < p implies (#[trigger] ts2[j]).0 != k by {
        assert(ts2[j] == ts[j]);
    }
    lemma_table_pos_at(ts2, k, 0, p);
}

/// Get after Set: a key reads back the value last set under it; on an empty
/// store it reads as `Null`.
pub proof fn law_get_after_set(st: StoreView, k: Seq<char>, v: Value)
    ensures
        exec_result(exec_state(st, CommandView::SetValue(k, v)), CommandView::Get(k)) == v,
        st.values.len() == 0 ==> exec_result(st, CommandView::Get(k)) == Value::Null,
{
    lemma_get_after_insert(st.values, k, v);
}

/// HGetAll: a key with no table gives an empty array, not an empty map; after
/// a field is set, the key's table is a map holding it (the only entry where
/// the key had no table).
pub proof fn law_hgetall(st: StoreView, k: Seq<char>, f: Seq<char>, v: Value)
    ensures
        table_get(st.tables, k) is None ==> exec_result(st, CommandView::HGetAll(k)) == Value::Array(Seq::empty()),
        ({
            let r = exec_result(exec_state(st, CommandView::HSet(k, f, v)), CommandView::HGetAll(k));
            &&& r is RespMap
            &&& map_get(r->RespMap_0, f) == Some(v)
            &&& table_get(st.tables, k) is None ==> r == Value::RespMap(seq![(f, v)])
        }),
{
    lemma_table_after_set(st.tables, k, f, v);
    let t = match table_get(st.tables, k) { Some(t) => t, None => Seq::empty() };
    lemma_get_after_insert(t, f, v);
    if table_get(st.tables, k) is None {
        assert(map_insert(Seq::<(Seq<char>, Value)>::empty(), f, v) =~= seq![(f, v)]);
    }
}

/// An array led by a bulk string that names no known command is
/// `Unrecognized`: it replies `OK` and leaves the store as it was.
pub proof fn law_unrecognized(xs: Seq<Value>, st: StoreView)
    requires
        xs.len() > 0,
        xs[0] is BulkString,
        xs[0]->BulkString_0 != name_get(),
        xs[0]->BulkString_0 != name_set(),
        xs[0]->BulkString_0 != name_hget(),
        xs[0]->BulkString_0 != name_hset(),
        xs[0]->BulkString_0 != name_hgetall(),
    ensures
        command_spec(xs) == Ok::<CommandView, CommandError>(CommandView::Unrecognized),
        exec_result(st, CommandView::Unrecognized) == ok_value(),
        exec_state(st, CommandView::Unrecognized) == st,
{
}

} // verus!
