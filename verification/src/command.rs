//! The log's record format.
//!
//! A record is one command in a compact JSON form,
//! `{"Set":{"key":K,"value":V}}` or `{"Remove":{"key":K}}`, where `K` and `V`
//! are JSON string literals. Records follow one another with nothing in
//! between; a reader finds where a record ends from the record itself.

use vstd::prelude::*;
use vstd::slice::slice_subrange;
use crate::error::KvsError;
use crate::json::{json_string, json_string_read, read_json_string, write_json_string};

verus! {

/// A command as the log stores it.
#[derive(Debug, Clone, PartialEq, Eq)]
pub enum Command {
    /// Bind `key` to `value`.
    Put { key: String, value: String },
    /// Drop the binding of `key`.
    Remove { key: String },
}

/// A command as contracts speak of it.
pub enum CommandView {
    Put { key: Seq<char>, value: Seq<char> },
    Remove { key: Seq<char> },
}

impl View for Command {
    type V = CommandView;

    open spec fn view(&self) -> CommandView {
        match self {
            Command::Put { key, value } => CommandView::Put { key: key@, value: value@ },
            Command::Remove { key } => CommandView::Remove { key: key@ },
        }
    }
}

/// `{"Set":{"key":`
pub open spec fn set_head() -> Seq<u8> {
    seq![0x7bu8, 0x22u8, 0x53u8, 0x65u8, 0x74u8, 0x22u8, 0x3au8, 0x7bu8, 0x22u8, 0x6bu8, 0x65u8, 0x79u8, 0x22u8, 0x3au8]
}

/// `,"value":`
pub open spec fn value_sep() -> Seq<u8> {
    seq![0x2cu8, 0x22u8, 0x76u8, 0x61u8, 0x6cu8, 0x75u8, 0x65u8, 0x22u8, 0x3au8]
}

/// `{"Remove":{"key":`
pub open spec fn remove_head() -> Seq<u8> {
    seq![0x7bu8, 0x22u8, 0x52u8, 0x65u8, 0x6du8, 0x6fu8, 0x76u8, 0x65u8, 0x22u8, 0x3au8, 0x7bu8, 0x22u8, 0x6bu8, 0x65u8, 0x79u8, 0x22u8, 0x3au8]
}

/// `}}`
pub open spec fn record_tail() -> Seq<u8> {
    seq![0x7du8, 0x7du8]
}

/// The bytes of the record that stores `c`.
pub open spec fn record_bytes(c: CommandView) -> Seq<u8> {
    match c {
        CommandView::Put { key, value } => set_head() + json_string(key) + value_sep()
            + json_string(value) + record_tail(),
        CommandView::Remove { key } => remove_head() + json_string(key) + record_tail(),
    }
}

/// Reads the fixed bytes `lit` and then one JSON string from the head of
/// `input`: the string and the number of bytes taken in all.
pub open spec fn read_field(input: Seq<u8>, lit: Seq<u8>) -> Option<(Seq<char>, nat)> {
    if lit.is_prefix_of(input) {
        match json_string_read(input.skip(lit.len() as int)) {
            Some((s, n)) => if lit.len() + n <= input.len() {
                Some((s, lit.len() + n))
            } else {
                None
            },
            None => None,
        }
    } else {
        None
    }
}

/// Reads a `Put` record from the head of `input`.
pub open spec fn read_set(input: Seq<u8>) -> Option<(CommandView, nat)> {
    match read_field(input, set_head()) {
        Some((key, n1)) => match read_field(input.skip(n1 as int), value_sep()) {
            Some((value, n2)) => if record_tail().is_prefix_of(input.skip((n1 + n2) as int)) {
                Some((CommandView::Put { key, value }, n1 + n2 + 2))
            } else {
                None
            },
            None => None,
        },
        None => None,
    }
}

/// Reads a `Remove` record from the head of `input`.
pub open spec fn read_remove(input: Seq<u8>) -> Option<(CommandView, nat)> {
    match read_field(input, remove_head()) {
        Some((key, n1)) => if record_tail().is_prefix_of(input.skip(n1 as int)) {
            Some((CommandView::Remove { key }, n1 + 2))
        } else {
            None
        },
        None => None,
    }
}

/// Reads one record from the head of `input`: the command and the number of
/// bytes that its record spans, or `None` where `input` does not begin with a
/// record.
pub open spec fn read_record(input: Seq<u8>) -> Option<(CommandView, nat)> {
    match read_set(input) {
        Some(r) => Some(r),
        None => read_remove(input),
    }
}

/// The command that `bytes` holds if it is exactly one record, with nothing
/// after it.
pub open spec fn record_of(bytes: Seq<u8>) -> Option<CommandView> {
    match read_record(bytes) {
        Some((c, n)) => if n == bytes.len() {
            Some(c)
        } else {
            None
        },
        None => None,
    }
}

/// `text` is a JSON string literal for `s` that reads back as `s` whatever
/// follows it.
pub open spec fn string_literal(text: Seq<u8>, s: Seq<char>) -> bool {
    forall|rest: Seq<u8>| #[trigger] json_string_read(text + rest) == Some((s, text.len()))
}

/// `chunk` is a record of `c` that reads back as `c` whatever follows it.
pub open spec fn reads_as(chunk: Seq<u8>, c: CommandView) -> bool {
    forall|rest: Seq<u8>| #[trigger] read_record(chunk + rest) == Some((c, chunk.len()))
}

/// A literal followed by a string literal reads as a field, whatever follows.
pub proof fn lemma_read_field(lit: Seq<u8>, text: Seq<u8>, s: Seq<char>, rest: Seq<u8>)
    requires
        string_literal(text, s),
    ensures
        read_field(lit + text + rest, lit) == Some((s, lit.len() + text.len())),
{
    let input = lit + text + rest;
    assert(input.subrange(0, lit.len() as int) =~= lit);
    assert(input.skip(lit.len() as int) =~= text + rest);
}

/// A framed `Put` record reads back as its command, whatever follows it.
pub proof fn lemma_put_reads(tk: Seq<u8>, tv: Seq<u8>, k: Seq<char>, v: Seq<char>)
    requires
        string_literal(tk, k),
        string_literal(tv, v),
    ensures
        reads_as(
            set_head() + tk + value_sep() + tv + record_tail(),
            CommandView::Put { key: k, value: v },
        ),
{
    let chunk = set_head() + tk + value_sep() + tv + record_tail();
    assert forall|rest: Seq<u8>| #[trigger]
        read_record(chunk + rest) == Some(
            (CommandView::Put { key: k, value: v }, chunk.len()),
        ) by {
        let input = chunk + rest;
        let after_key = value_sep() + tv + record_tail() + rest;
        assert(input =~= set_head() + tk + after_key);
        lemma_read_field(set_head(), tk, k, after_key);
        let n1 = set_head().len() + tk.len();
        assert(input.skip(n1 as int) =~= value_sep() + tv + (record_tail() + rest));
        lemma_read_field(value_sep(), tv, v, record_tail() + rest);
        let n2 = value_sep().len() + tv.len();
        assert(input.skip((n1 + n2) as int) =~= record_tail() + rest);
        assert((record_tail() + rest).subrange(0, 2) =~= record_tail());
    }
}

/// A framed `Remove` record reads back as its command, whatever follows it.
pub proof fn lemma_remove_reads(tk: Seq<u8>, k: Seq<char>)
    requires
        string_literal(tk, k),
    ensures
        reads_as(remove_head() + tk + record_tail(), CommandView::Remove { key: k }),
{
    let chunk = remove_head() + tk + record_tail();
    assert forall|rest: Seq<u8>| #[trigger]
        read_record(chunk + rest) == Some((CommandView::Remove { key: k }, chunk.len())) by {
        let input = chunk + rest;
        assert(input =~= remove_head() + tk + (record_tail() + rest));
        lemma_read_field(remove_head(), tk, k, record_tail() + rest);
        let n1 = remove_head().len() + tk.len();
        assert(input.skip(n1 as int) =~= record_tail() + rest);
        assert((record_tail() + rest).subrange(0, 2) =~= record_tail());
        assert(input[2] == 0x52u8);
        assert(set_head()[2] == 0x53u8);
        assert(!set_head().is_prefix_of(input)) by {
            if set_head().is_prefix_of(input) {
                assert(input.subrange(0, 14)[2] == set_head()[2]);
            }
        }
    }
}

/// An input that begins with a record reads as that record.
pub proof fn lemma_reads_prefix(input: Seq<u8>, n: nat, c: CommandView)
    requires
        n <= input.len(),
        reads_as(input.subrange(0, n as int), c),
    ensures
        read_record(input) == Some((c, n)),
{
    assert(input.subrange(0, n as int) + input.skip(n as int) =~= input);
}

/// A record that reads back whatever follows it reads back alone.
pub proof fn lemma_reads_alone(chunk: Seq<u8>, c: CommandView)
    requires
        reads_as(chunk, c),
    ensures
        read_record(chunk) == Some((c, chunk.len())),
{
    assert(chunk + Seq::<u8>::empty() =~= chunk);
}

pub(crate) fn set_head_bytes() -> (v: Vec<u8>)
    ensures
        v@ == set_head(),
{
    let v = vec![0x7bu8, 0x22u8, 0x53u8, 0x65u8, 0x74u8, 0x22u8, 0x3au8, 0x7bu8, 0x22u8, 0x6bu8, 0x65u8, 0x79u8, 0x22u8, 0x3au8];
    assert(v@ =~= set_head());
    v
}

pub(crate) fn value_sep_bytes() -> (v: Vec<u8>)
    ensures
        v@ == value_sep(),
{
    let v = vec![0x2cu8, 0x22u8, 0x76u8, 0x61u8, 0x6cu8, 0x75u8, 0x65u8, 0x22u8, 0x3au8];
    assert(v@ =~= value_sep());
    v
}

pub(crate) fn remove_head_bytes() -> (v: Vec<u8>)
    ensures
        v@ == remove_head(),
{
    let v = vec![0x7bu8, 0x22u8, 0x52u8, 0x65u8, 0x6du8, 0x6fu8, 0x76u8, 0x65u8, 0x22u8, 0x3au8, 0x7bu8, 0x22u8, 0x6bu8, 0x65u8, 0x79u8, 0x22u8, 0x3au8];
    assert(v@ =~= remove_head());
    v
}

pub(crate) fn record_tail_bytes() -> (v: Vec<u8>)
    ensures
        v@ == record_tail(),
{
    let v = vec![0x7du8, 0x7du8];
    assert(v@ =~= record_tail());
    v
}

/// Appends the JSON string literal for `s` to `out`.
pub(crate) fn push_json_string(out: &mut Vec<u8>, s: &str)
    ensures
        final(out)@ == old(out)@ + json_string(s@),
        string_literal(json_string(s@), s@),
        json_string(s@).len() > 0 && json_string(s@)[0] == 0x22u8,
{
    match write_json_string(s) {
        Ok(text) => {
            out.extend_from_slice(text.as_slice());
        },
        Err(_) => {},
    }
}

/// The record that binds `key` to `value`.
pub fn encode_put(key: &str, value: &str) -> (out: Vec<u8>)
    ensures
        out@ == record_bytes(CommandView::Put { key: key@, value: value@ }),
        reads_as(out@, CommandView::Put { key: key@, value: value@ }),
{
    let mut out = set_head_bytes();
    push_json_string(&mut out, key);
    let mut sep = value_sep_bytes();
    out.append(&mut sep);
    push_json_string(&mut out, value);
    let mut tail = record_tail_bytes();
    out.append(&mut tail);
    proof {
        lemma_put_reads(json_string(key@), json_string(value@), key@, value@);
    }
    out
}

/// The record that unbinds `key`.
pub fn encode_remove(key: &str) -> (out: Vec<u8>)
    ensures
        out@ == record_bytes(CommandView::Remove { key: key@ }),
        reads_as(out@, CommandView::Remove { key: key@ }),
{
    let mut out = remove_head_bytes();
    push_json_string(&mut out, key);
    let mut tail = record_tail_bytes();
    out.append(&mut tail);
    proof {
        lemma_remove_reads(json_string(key@), key@);
    }
    out
}

/// Serialises a command as one log record.
pub fn encode_command(c: &Command) -> (out: Vec<u8>)
    ensures
        out@ == record_bytes(c@),
        reads_as(out@, c@),
{
    match c {
        Command::Put { key, value } => encode_put(key.as_str(), value.as_str()),
        Command::Remove { key } => encode_remove(key.as_str()),
    }
}

/// A record spans at least its fixed bytes.
pub proof fn lemma_record_bytes_len(c: CommandView)
    ensures
        record_bytes(c).len() >= 19,
{
}

/// Whether `input` begins with the bytes of `lit`.
pub(crate) fn has_prefix(input: &[u8], lit: &Vec<u8>) -> (b: bool)
    ensures
        b == lit@.is_prefix_of(input@),
{
    if lit.len() > input.len() {
        return false;
    }
    let mut i: usize = 0;
    while i < lit.len()
        invariant
            i <= lit.len() <= input.len(),
            forall|j: int| 0 <= j < i ==> lit@[j] == input@[j],
        decreases lit.len() - i,
    {
        if lit[i] != input[i] {
            proof {
                if lit@.is_prefix_of(input@) {
                    assert(input@.subrange(0, lit@.len() as int)[i as int] == lit@[i as int]);
                }
            }
            return false;
        }
        i += 1;
    }
    assert(lit@ =~= input@.subrange(0, lit@.len() as int));
    true
}

/// Reads the fixed bytes `lit` and then one JSON string from the head of
/// `input`.
pub(crate) fn read_field_exec(input: &[u8], lit: &Vec<u8>) -> (r: Result<(String, usize), KvsError>)
    ensures
        match r {
            Ok((s, n)) => {
                &&& read_field(input@, lit@) == Some((s@, n as nat))
                &&& lit@.len() <= n <= input@.len()
                &&& input@.subrange(0, lit@.len() as int) == lit@
                &&& string_literal(input@.subrange(lit@.len() as int, n as int), s@)
            },
            Err(e) => read_field(input@, lit@) is None && e is Serde,
        },
{
    if !has_prefix(input, lit) {
        return Err(KvsError::Serde("unexpected bytes in a record".to_string()));
    }
    let rest = slice_subrange(input, lit.len(), input.len());
    assert(rest@ == input@.skip(lit@.len() as int));
    match read_json_string(rest) {
        Ok(Some((s, m))) => {
            proof {
                let text = input@.subrange(lit@.len() as int, lit@.len() + m);
                assert forall|more: Seq<u8>| #[trigger]
                    json_string_read(text + more) == Some((s@, text.len())) by {
                    let other = text + more;
                    assert(other.subrange(0, m as int) =~= rest@.subrange(0, m as int));
                }
            }
            Ok((s, lit.len() + m))
        },
        Ok(None) => Err(KvsError::Serde("a record ends where a string should begin".to_string())),
        Err(e) => Err(KvsError::from(e)),
    }
}

/// Reads one record from the head of `input`: the command and the number of
/// bytes that its record spans. Fails with `Serde` where `input` does not
/// begin with a record.
pub fn read_command(input: &[u8]) -> (r: Result<(Command, usize), KvsError>)
    ensures
        match r {
            Ok((c, n)) => {
                &&& read_record(input@) == Some((c@, n as nat))
                &&& 0 < n <= input@.len()
                &&& reads_as(input@.subrange(0, n as int), c@)
            },
            Err(e) => read_record(input@) is None && e is Serde,
        },
{
    let tail = record_tail_bytes();
    let put_lit = set_head_bytes();
    match read_field_exec(input, &put_lit) {
        Ok((key, n1)) => {
            let after_key = slice_subrange(input, n1, input.len());
            let sep = value_sep_bytes();
            match read_field_exec(after_key, &sep) {
                Ok((value, n2)) => {
                    let after_value = slice_subrange(after_key, n2, after_key.len());
                    assert(after_value@ == input@.skip((n1 + n2) as int));
                    if has_prefix(after_value, &tail) {
                        let n: usize = n1 + n2 + 2;
                        proof {
                            let tk = input@.subrange(14, n1 as int);
                            let tv = input@.subrange(n1 + 9, n1 + n2);
                            assert(tv =~= after_key@.subrange(9, n2 as int));
                            lemma_put_reads(tk, tv, key@, value@);
                            assert(input@.subrange(0, n as int) =~= set_head() + tk + value_sep()
                                + tv + record_tail()) by {
                                assert(input@.subrange(0, 14) == set_head());
                                assert(after_key@.subrange(0, 9) == value_sep());
                                assert(after_value@.subrange(0, 2) == record_tail());
                                assert forall|i: int| 0 <= i < n implies input@.subrange(
                                    0,
                                    n as int,
                                )[i] == (set_head() + tk + value_sep() + tv + record_tail())[i] by {
                                    if i < 14 {
                                        assert(input@.subrange(0, 14)[i] == input@[i]);
                                    } else if i < n1 {
                                    } else if i < n1 + 9 {
                                        assert(after_key@.subrange(0, 9)[i - n1] == after_key@[i - n1]);
                                    } else if i < n1 + n2 {
                                    } else {
                                        assert(after_value@.subrange(0, 2)[i - n1 - n2]
                                            == after_value@[i - n1 - n2]);
                                    }
                                }
                            }
                            lemma_reads_prefix(input@, n as nat, Command::Put { key, value }@);
                        }
                        return Ok((Command::Put { key, value }, n));
                    } else {
                        return Err(KvsError::Serde("a record is not closed".to_string()));
                    }
                },
                Err(e) => {
                    return Err(e);
                },
            }
        },
        Err(_) => {},
    }
    let remove_lit = remove_head_bytes();
    match read_field_exec(input, &remove_lit) {
        Ok((key, n1)) => {
            let after_key = slice_subrange(input, n1, input.len());
            assert(after_key@ == input@.skip(n1 as int));
            if has_prefix(after_key, &tail) {
                let n: usize = n1 + 2;
                proof {
                    let tk = input@.subrange(17, n1 as int);
                    lemma_remove_reads(tk, key@);
                    assert(input@.subrange(0, n as int) =~= remove_head() + tk + record_tail()) by {
                        assert(input@.subrange(0, 17) == remove_head());
                        assert(after_key@.subrange(0, 2) == record_tail());
                        assert forall|i: int| 0 <= i < n implies input@.subrange(0, n as int)[i] == (
                        remove_head() + tk + record_tail())[i] by {
                            if i < 17 {
                                assert(input@.subrange(0, 17)[i] == input@[i]);
                            } else if i < n1 {
                            } else {
                                assert(after_key@.subrange(0, 2)[i - n1] == after_key@[i - n1]);
                            }
                        }
                    }
                    lemma_reads_prefix(input@, n as nat, Command::Remove { key }@);
                }
                Ok((Command::Remove { key }, n))
            } else {
                Err(KvsError::Serde("a record is not closed".to_string()))
            }
        },
        Err(e) => Err(e),
    }
}

/// Parses `bytes` as exactly one record. Fails with `Serde` where `bytes` does
/// not begin with a record or goes on after it.
pub fn parse_record(bytes: &[u8]) -> (r: Result<Command, KvsError>)
    ensures
        match r {
            Ok(c) => record_of(bytes@) == Some(c@),
            Err(e) => record_of(bytes@) is None && e is Serde,
        },
{
    match read_command(bytes) {
        Ok((c, n)) => {
            if n == bytes.len() {
                Ok(c)
            } else {
                Err(KvsError::Serde("bytes follow the record".to_string()))
            }
        },
        Err(e) => Err(e),
    }
}

/// The value that the record in `bytes` stores. Fails with
/// `UnexceptedCommandType` where the record is a `Remove`, and with `Serde`
/// where `bytes` is not exactly one record.
pub fn value_of_record(bytes: &[u8]) -> (r: Result<String, KvsError>)
    ensures
        match record_of(bytes@) {
            Some(CommandView::Put { key, value }) => r is Ok && r->Ok_0@ == value,
            Some(CommandView::Remove { key }) => r is Err && r->Err_0 is UnexceptedCommandType,
            None => r is Err && r->Err_0 is Serde,
        },
{
    match parse_record(bytes) {
        Ok(Command::Put { key, value }) => {
            Ok(value)
        },
        Ok(Command::Remove { key }) => Err(KvsError::UnexceptedCommandType),
        Err(e) => Err(e),
    }
}

} // verus!
