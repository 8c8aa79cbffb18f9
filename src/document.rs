use vstd::prelude::*;
use crate::model::{YamlValue, YamlNode, ValueModel, wf_value, entries_view, entries_map, keys_sorted, lemma_entries_view};
use crate::mapping::lemma_entries_map_at;
use crate::text::{chars_of, chars_eq};
use crate::lines::{preprocess, split_newlines, has_tab};
use crate::machine::ParseMachine;
use crate::lines::logical_lines;
use crate::semantics::{Place, machine_run, initial_machine};
use crate::error::ParseError;

verus! {

/// The version that a document must declare.
pub const REQUIRED_VERSION: &'static str = "2025.01.01-0";

/// The key under which a document declares its version.
pub const VERSION_KEY: &'static str = "_naay_version";

pub open spec fn version_key() -> Seq<char> {
    seq!['_', 'n', 'a', 'a', 'y', '_', 'v', 'e', 'r', 's', 'i', 'o', 'n']
}

pub open spec fn required_version() -> Seq<char> {
    seq!['2', '0', '2', '5', '.', '0', '1', '.', '0', '1', '-', '0']
}

/// The root is a mapping whose version entry is a scalar of the shape
/// `YYYY.MM.DD-REV` that equals the required version.
pub open spec fn version_ok(v: ValueModel) -> bool {
    match v {
        ValueModel::Mapping(es) => {
            &&& entries_map(es).contains_key(version_key())
            &&& match entries_map(es)[version_key()].value {
                ValueModel::Str(s) => date_version_shape(s) && s == required_version(),
                _ => false,
            }
        },
        _ => false,
    }
}

/// The message with which the version check refuses a root.
pub open spec fn version_error(v: ValueModel) -> Seq<char> {
    match v {
        ValueModel::Mapping(es) => if !entries_map(es).contains_key(version_key()) {
            "missing required _naay_version at root"@
        } else {
            match entries_map(es)[version_key()].value {
                ValueModel::Str(s) => if !date_version_shape(s) {
                    "malformed _naay_version, expected YYYY.MM.DD-REV: "@ + s
                } else {
                    "unsupported _naay_version, expected 2025.01.01-0: "@ + s
                },
                _ => "_naay_version must be a string scalar"@,
            }
        },
        _ => "root of document must be a mapping"@,
    }
}

pub open spec fn is_digit(c: char) -> bool {
    '0' <= c && c <= '9'
}

pub open spec fn digit_value(c: char) -> int {
    c as int - '0' as int
}

pub open spec fn digits_at(s: Seq<char>, a: int, b: int) -> bool {
    forall|i: int| a <= i < b ==> is_digit(#[trigger] s[i])
}

/// The version pattern `YYYY.MM.DD-REV`: a year from 1970, a month from 1 to
/// 12, a day from 1 to 31, and a revision of one or more digits.
pub open spec fn date_version_shape(s: Seq<char>) -> bool {
    &&& s.len() >= 12
    &&& digits_at(s, 0, 4)
    &&& s[4] == '.'
    &&& digits_at(s, 5, 7)
    &&& s[7] == '.'
    &&& digits_at(s, 8, 10)
    &&& s[10] == '-'
    &&& digits_at(s, 11, s.len() as int)
    &&& 1000 * digit_value(s[0]) + 100 * digit_value(s[1]) + 10 * digit_value(s[2]) + digit_value(s[3]) >= 1970
    &&& 1 <= 10 * digit_value(s[5]) + digit_value(s[6]) <= 12
    &&& 1 <= 10 * digit_value(s[8]) + digit_value(s[9]) <= 31
}

fn digit(c: char) -> (r: u32)
    requires
        is_digit(c),
    ensures
        r as int == digit_value(c),
{
    (c as u32) - ('0' as u32)
}

fn all_digits(s: &[char], a: usize, b: usize) -> (r: bool)
    requires
        a <= b <= s@.len(),
    ensures
        r == digits_at(s@, a as int, b as int),
{
    let mut i = a;
    while i < b
        invariant
            a <= i <= b,
            b <= s@.len(),
            digits_at(s@, a as int, i as int),
        decreases b - i,
    {
        if !('0' <= s[i] && s[i] <= '9') {
            return false;
        }
        i = i + 1;
    }
    true
}

/// Whether `s` has the shape `YYYY.MM.DD-REV`.
pub fn is_date_version(s: &[char]) -> (r: bool)
    ensures
        r == date_version_shape(s@),
{
    if s.len() < 12 || !all_digits(s, 0, 4) || s[4] != '.' || !all_digits(s, 5, 7) || s[7] != '.'
        || !all_digits(s, 8, 10) || s[10] != '-' || !all_digits(s, 11, s.len()) {
        return false;
    }
    let year = 1000 * digit(s[0]) + 100 * digit(s[1]) + 10 * digit(s[2]) + digit(s[3]);
    let month = 10 * digit(s[5]) + digit(s[6]);
    let day = 10 * digit(s[8]) + digit(s[9]);
    year >= 1970 && 1 <= month && month <= 12 && 1 <= day && day <= 31
}

/// The position of the entry with key `key`, if any.
fn find_entry(entries: &Vec<(String, YamlNode)>, key: &[char]) -> (r: Option<usize>)
    requires
        keys_sorted(entries_view(entries@)),
    ensures
        r is None <==> !entries_map(entries_view(entries@)).contains_key(key@),
        r is Some ==> r->0 < entries@.len() && entries@[r->0 as int].0@ == key@
            && entries_map(entries_view(entries@))[key@] == entries@[r->0 as int].1@,
{
    proof {
        lemma_entries_view(entries@);
    }
    let mut i: usize = 0;
    while i < entries.len()
        invariant
            i <= entries@.len(),
            forall|j: int| 0 <= j < i ==> entries@[j].0@ != key@,
            keys_sorted(entries_view(entries@)),
            entries_view(entries@).len() == entries@.len(),
            forall|j: int| 0 <= j < entries@.len() ==> #[trigger] entries_view(entries@)[j] == (entries@[j].0@, entries@[j].1@),
        decreases entries.len() - i,
    {
        let kc = chars_of(entries[i].0.as_str());
        if chars_eq(&kc, key) {
            proof {
                lemma_entries_map_at(entries_view(entries@), i as int);
            }
            return Some(i);
        }
        i = i + 1;
    }
    proof {
        let ev = entries_view(entries@);
        if entries_map(ev).contains_key(key@) {
            let m = choose|x: int| 0 <= x < ev.len() && ev[x].0 == key@;
            assert(ev[m].0 == entries@[m].0@);
        }
    }
    None
}

/// Checks that the root of a document is a mapping that declares the
/// required version; an error stands at `line_no`, column one.
pub fn check_version(value: &YamlValue, line_no: usize) -> (r: Result<(), ParseError>)
    requires
        wf_value(value@),
    ensures
        r is Ok <==> version_ok(value@),
        r is Err ==> r->Err_0.line() == line_no && r->Err_0.column() == 1,
        r is Err ==> r->Err_0.place() == (line_no as nat, 1nat, version_error(value@)),
{
    let entries = match value {
        YamlValue::Mapping(entries) => entries,
        _ => {
            return Err(ParseError::new(line_no, 1, "root of document must be a mapping"));
        }
    };
    let key = chars_of(VERSION_KEY);
    proof {
        reveal_strlit("_naay_version");
        assert(key@ =~= version_key());
    }
    let pos = match find_entry(entries, &key) {
        Some(p) => p,
        None => {
            return Err(ParseError::new(line_no, 1, "missing required _naay_version at root"));
        }
    };
    let ver = match &entries[pos].1.value {
        YamlValue::Str(s) => chars_of(s.as_str()),
        _ => {
            return Err(ParseError::new(line_no, 1, "_naay_version must be a string scalar"));
        }
    };
    if !is_date_version(&ver) {
        return Err(ParseError::named(line_no, 1, "malformed _naay_version, expected YYYY.MM.DD-REV: ", &ver));
    }
    let required = chars_of(REQUIRED_VERSION);
    proof {
        reveal_strlit("2025.01.01-0");
        assert(required@ =~= required_version());
    }
    if !chars_eq(&ver, &required) {
        return Err(ParseError::named(line_no, 1, "unsupported _naay_version, expected 2025.01.01-0: ", &ver));
    }
    Ok(())
}

/// Line `k` (from zero) is the first physical line of `input` that holds a tab.
pub open spec fn first_tab_line(input: Seq<char>, k: int) -> bool {
    &&& 0 <= k < split_newlines(input).len()
    &&& has_tab(split_newlines(input)[k])
    &&& forall|j: int| 0 <= j < k ==> !has_tab(#[trigger] split_newlines(input)[j])
}

/// What parsing `input` yields: a tab refuses the document at the first line
/// that holds one; a document without lines lacks its version; otherwise the
/// parser runs over the non-blank lines, and its result must declare the
/// required version.
pub open spec fn parse_document(input: Seq<char>) -> Result<ValueModel, Place> {
    if exists|k: int| first_tab_line(input, k) {
        Err((((choose|k: int| first_tab_line(input, k)) + 1) as nat, 1nat, crate::error::tab_message()))
    } else {
        let raws = split_newlines(input);
        let ls = logical_lines(raws, raws.len() as int);
        if ls.len() == 0 {
            Err((1nat, 1nat, "missing required _naay_version at root"@))
        } else {
            match machine_run(initial_machine(ls), 6 * ls.len() + 1) {
                Ok(v) => if version_ok(v) { Ok(v) } else { Err((ls[0].2, 1nat, version_error(v))) },
                Err(e) => Err(e),
            }
        }
    }
}

/// Parses a document. Its root must be a mapping that declares the required
/// version; a document with a tab is refused at the first line that holds one.
pub fn parse_naay(input: &str) -> (r: Result<YamlValue, ParseError>)
    ensures
        match r {
            Ok(v) => parse_document(input@) == Ok::<ValueModel, Place>(v@),
            Err(e) => parse_document(input@) == Err::<ValueModel, Place>(e.place()),
        },
        r is Ok ==> wf_value(r->Ok_0@) && version_ok(r->Ok_0@),
        forall|k: int| first_tab_line(input@, k) ==> r is Err && r->Err_0.line() == k + 1
            && r->Err_0.column() == 1,
{
    let lines = match preprocess(input) {
        Ok(ls) => ls,
        Err(e) => {
            proof {
                let k = choose|k: int| {
                    &&& 0 <= k < split_newlines(input@).len()
                    &&& has_tab(#[trigger] split_newlines(input@)[k])
                    &&& forall|j: int| 0 <= j < k ==> !has_tab(#[trigger] split_newlines(input@)[j])
                    &&& e.line() == k + 1
                    &&& e.column() == 1
                };
                assert(first_tab_line(input@, k));
                let k2 = choose|k: int| first_tab_line(input@, k);
                assert(k2 == k);
            }
            return Err(e);
        }
    };
    proof {
        if exists|k: int| first_tab_line(input@, k) {
            let k = choose|k: int| first_tab_line(input@, k);
            assert(!has_tab(split_newlines(input@)[k]));
        }
    }
    if lines.len() == 0 {
        return Err(ParseError::new(1, 1, "missing required _naay_version at root"));
    }
    proof {
        assert(crate::lines::lines_view(lines@)[0] == crate::lines::line_view(lines@[0]));
    }
    let first_line = lines[0].line_no;
    let mut machine = match ParseMachine::new(lines) {
        Ok(m) => m,
        Err(e) => {
            return Err(e);
        }
    };
    let value = match machine.run_step() {
        Ok(v) => v,
        Err(e) => {
            return Err(e);
        }
    };
    match check_version(&value, first_line) {
        Ok(()) => Ok(value),
        Err(e) => Err(e),
    }
}

} // verus!
