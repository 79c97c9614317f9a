//! The names of the database's files, and the repair of a database whose
//! manifest is lost.

use vstd::prelude::*;

use crate::bytes::{bytes_eq, copy_bytes};
use crate::engine::catalog::{file_of, flattened, opened};
use crate::engine::layout::{level_end, listed, place, tidy};
use crate::engine::tables::TableEntry;
use crate::manifest::{at_level, Manifest, MetaView, SSTMeta};
use crate::entries::{sorted, Entry};
use crate::sstable::builder::{file_opens, is_file_of};
use crate::sstable::format::{parse_table, table_fits};
use crate::sstable::reader::SSTableReader;

verus! {

/// The end of the name of a table file: ".sst".
pub open spec fn sst_suffix() -> Seq<u8> {
    seq![0x2eu8, 0x73, 0x73, 0x74]
}

/// The end of the name of a log file: ".wal".
pub open spec fn wal_suffix() -> Seq<u8> {
    seq![0x2eu8, 0x77, 0x61, 0x6c]
}

/// The name of a new log file: "000001.wal".
pub open spec fn default_wal_name() -> Seq<u8> {
    seq![0x30u8, 0x30, 0x30, 0x30, 0x30, 0x31] + wal_suffix()
}

/// Whether `s` ends with `suffix`.
pub open spec fn ends_with(s: Seq<u8>, suffix: Seq<u8>) -> bool {
    suffix.len() <= s.len() && s.skip(s.len() - suffix.len()) == suffix
}

/// `s` without the table file suffix, however often it stands at the end.
pub open spec fn trimmed(s: Seq<u8>) -> Seq<u8>
    decreases s.len(),
{
    if ends_with(s, sst_suffix()) {
        trimmed(s.take(s.len() - 4))
    } else {
        s
    }
}

/// Whether a byte is a decimal digit.
pub open spec fn is_digit(b: u8) -> bool {
    0x30 <= b <= 0x39
}

/// The value of a string of decimal digits.
pub open spec fn digits_value(s: Seq<u8>) -> nat
    decreases s.len(),
{
    if s.len() == 0 {
        0
    } else {
        digits_value(s.drop_last()) * 10 + (s.last() - 0x30) as nat
    }
}

/// The number that a string of decimal digits spells, if it is one that fits.
pub open spec fn digits_number(s: Seq<u8>) -> Option<u64> {
    if s.len() > 0 && (forall|i: int| 0 <= i < s.len() ==> is_digit(#[trigger] s[i]))
        && digits_value(s) <= u64::MAX {
        Some(digits_value(s) as u64)
    } else {
        None
    }
}

/// The number that a string spells: decimal digits, behind a plus sign or not.
pub open spec fn number_of(s: Seq<u8>) -> Option<u64> {
    if s.len() > 0 && s[0] == 0x2b {
        digits_number(s.drop_first())
    } else {
        digits_number(s)
    }
}

/// The number of the table that a file name tells, if it is one of a table file.
pub open spec fn sst_number(name: Seq<u8>) -> Option<u64> {
    if ends_with(name, sst_suffix()) {
        number_of(trimmed(name))
    } else {
        None
    }
}

/// The decimal digits of a number.
pub open spec fn digits_of(n: nat) -> Seq<u8>
    decreases n,
{
    if n < 10 {
        seq![(0x30 + n) as u8]
    } else {
        digits_of(n / 10).push((0x30 + n % 10) as u8)
    }
}

/// The decimal digits of a number, filled up with zeros to six.
pub open spec fn padded_digits(n: nat) -> Seq<u8> {
    let digits = digits_of(n);
    if digits.len() < 6 {
        Seq::new((6 - digits.len()) as nat, |i: int| 0x30u8) + digits
    } else {
        digits
    }
}

/// The name of the file of a table.
pub open spec fn sst_name(id: u64) -> Seq<u8> {
    padded_digits(id as nat) + sst_suffix()
}

/// The digits of a number spell it.
proof fn digits_spell(n: nat)
    ensures
        digits_of(n).len() > 0,
        digits_value(digits_of(n)) == n,
        forall|i: int| 0 <= i < digits_of(n).len() ==> is_digit(#[trigger] digits_of(n)[i]),
    decreases n,
{
    if n < 10 {
        let s = digits_of(n);
        assert(s.drop_last() =~= Seq::empty());
        assert(digits_value(s.drop_last()) == 0);
    } else {
        digits_spell(n / 10);
        let s = digits_of(n);
        assert(s.drop_last() =~= digits_of(n / 10));
        assert forall|i: int| 0 <= i < s.len() implies is_digit(#[trigger] s[i]) by {
            if i < s.len() - 1 {
                assert(is_digit(digits_of(n / 10)[i]));
            }
        }
    }
}

/// Zeros in front do not change what digits spell.
proof fn zeros_in_front(k: nat, s: Seq<u8>)
    ensures
        digits_value(Seq::new(k, |i: int| 0x30u8) + s) == digits_value(s),
    decreases k + s.len(),
{
    let zeros = Seq::new(k, |i: int| 0x30u8);
    if s.len() > 0 {
        zeros_in_front(k, s.drop_last());
        assert((zeros + s).drop_last() =~= zeros + s.drop_last());
    } else if k > 0 {
        let fewer = Seq::new((k - 1) as nat, |i: int| 0x30u8);
        zeros_in_front((k - 1) as nat, s);
        assert((zeros + s).drop_last() =~= fewer + s);
    } else {
        assert(zeros + s =~= s);
    }
}

/// The name of a table's file tells the table's number.
pub proof fn sst_name_tells_number(id: u64)
    ensures
        sst_number(sst_name(id)) == Some(id),
{
    let digits = digits_of(id as nat);
    let padded = padded_digits(id as nat);
    let name = sst_name(id);
    digits_spell(id as nat);
    if digits.len() < 6 {
        zeros_in_front((6 - digits.len()) as nat, digits);
    }
    assert forall|i: int| 0 <= i < padded.len() implies is_digit(#[trigger] padded[i]) by {
        if digits.len() < 6 {
            let k = 6 - digits.len();
            if i >= k {
                assert(padded[i] == digits[i - k]);
            }
        }
    }
    assert(name.skip(name.len() - 4) =~= sst_suffix());
    assert(name.take(name.len() - 4) =~= padded);
    assert(!ends_with(padded, sst_suffix())) by {
        if ends_with(padded, sst_suffix()) {
            let tail = padded.skip(padded.len() - 4);
            assert(tail[3] == 0x74u8);
            assert(tail[3] == padded[padded.len() - 1]);
        }
    }
    assert(trimmed(padded) == padded);
    assert(padded.len() > 0);
    assert(is_digit(padded[0]));
}

/// A name of digits and ".sst" is that of the table whose number the digits spell,
/// with zeros in front or not, if the number fits.
pub proof fn sst_number_reads_digits(digits: Seq<u8>, d: u8)
    requires
        digits.len() > 0,
        forall|i: int| 0 <= i < digits.len() ==> 0x30 <= #[trigger] digits[i] <= 0x39,
    ensures
        sst_number(digits + seq![0x2eu8, 0x73, 0x73, 0x74]) == if digits_value(digits) <= u64::MAX {
            Some(digits_value(digits) as u64)
        } else {
            None
        },
        digits_value(Seq::empty()) == 0,
        0x30 <= d <= 0x39 ==> digits_value(digits.push(d)) == 10 * digits_value(digits) + (d - 0x30),
{
    let name = digits + seq![0x2eu8, 0x73, 0x73, 0x74];
    assert(name.skip(name.len() - 4) =~= sst_suffix());
    assert(name.take(name.len() - 4) =~= digits);
    assert(!ends_with(digits, sst_suffix())) by {
        if ends_with(digits, sst_suffix()) {
            let tail = digits.skip(digits.len() - 4);
            assert(tail[3] == 0x74u8);
            assert(tail[3] == digits[digits.len() - 1]);
        }
    }
    assert(trimmed(digits) == digits);
    assert(0x30 <= digits[0] <= 0x39);
    assert(digits.push(d).drop_last() =~= digits);
    assert forall|i: int| 0 <= i < digits.len() implies is_digit(#[trigger] digits[i]) by {}
}

/// A name that does not end in ".sst" is that of no table, nor is one that starts
/// with anything but a digit or a plus sign.
pub proof fn other_names_are_no_tables(name: Seq<u8>)
    ensures
        name.len() < 4 || name.skip(name.len() - 4) != seq![0x2eu8, 0x73, 0x73, 0x74] ==> sst_number(
            name,
        ) is None,
        sst_number(name) is Some ==> 0x30 <= name[0] <= 0x39 || name[0] == 0x2b,
{
    assert(sst_suffix() =~= seq![0x2eu8, 0x73, 0x73, 0x74]);
    if sst_number(name) is Some {
        trimmed_is_front(name);
        let t = trimmed(name);
        if t.len() > 0 && t[0] != 0x2b {
            assert(is_digit(t[0]));
        }
    }
}

/// What stands before ".sst" in the name of a table is all digits, but for a plus
/// sign in front. If ".sst" stands there once more it counts for nothing.
pub proof fn table_names_are_digits(body: Seq<u8>, i: int)
    ensures
        ({
            let suffix: Seq<u8> = seq![0x2e, 0x73, 0x73, 0x74];
            let again = body.len() >= 4 && body.skip(body.len() - 4) == suffix;
            &&& again ==> sst_number(body + suffix) == sst_number(body)
            &&& !again && sst_number(body + suffix) is Some && 0 <= i < body.len() ==> 0x30
                <= body[i] <= 0x39 || (i == 0 && body[0] == 0x2b)
            &&& !again && sst_number(body + suffix) is Some ==> body.len() > 0 && digits_value(
                if body[0] == 0x2b {
                    body.drop_first()
                } else {
                    body
                },
            ) == sst_number(body + suffix)->Some_0
        }),
{
    let suffix: Seq<u8> = seq![0x2e, 0x73, 0x73, 0x74];
    let name = body + suffix;
    assert(sst_suffix() =~= suffix);
    assert(name.skip(name.len() - 4) =~= suffix);
    assert(name.take(name.len() - 4) =~= body);
    if !ends_with(body, sst_suffix()) && sst_number(name) is Some && 0 <= i < body.len() {
        if body[0] == 0x2b {
            if i > 0 {
                assert(is_digit(body.drop_first()[i - 1]));
            }
        } else {
            assert(is_digit(body[i]));
        }
    }
}

/// What is left of a trimmed name is its front.
proof fn trimmed_is_front(s: Seq<u8>)
    ensures
        trimmed(s).len() <= s.len(),
        trimmed(s) == s.take(trimmed(s).len() as int),
    decreases s.len(),
{
    if ends_with(s, sst_suffix()) {
        let front = s.take(s.len() - 4);
        trimmed_is_front(front);
        let n = trimmed(s).len() as int;
        assert(front.take(n) =~= s.take(n));
    } else {
        assert(s.take(s.len() as int) =~= s);
    }
}

/// The name of a table's file is its number in digits, filled up with zeros to six,
/// and ".sst".
pub proof fn sst_name_is_padded(id: u64)
    ensures
        ({
            let name = sst_name(id);
            let n = name.len() - 4;
            &&& n >= 6
            &&& name.skip(n) == seq![0x2eu8, 0x73, 0x73, 0x74]
            &&& forall|i: int| 0 <= i < n ==> 0x30 <= #[trigger] name[i] <= 0x39
            &&& digits_value(name.take(n)) == id
            &&& n > 6 ==> name[0] != 0x30
        }),
{
    let digits = digits_of(id as nat);
    let padded = padded_digits(id as nat);
    let name = sst_name(id);
    let n = name.len() - 4;
    digits_spell(id as nat);
    first_digit(id as nat);
    if digits.len() < 6 {
        zeros_in_front((6 - digits.len()) as nat, digits);
    }
    assert(name.skip(n) =~= seq![0x2eu8, 0x73, 0x73, 0x74]);
    assert(name.take(n) =~= padded);
    assert forall|i: int| 0 <= i < n implies 0x30 <= #[trigger] name[i] <= 0x39 by {
        if digits.len() < 6 {
            let k = 6 - digits.len();
            if i >= k {
                assert(is_digit(digits[i - k]));
            }
        } else {
            assert(is_digit(digits[i]));
        }
    }
}

/// A number above 0 does not start with a zero.
proof fn first_digit(n: nat)
    ensures
        digits_of(n).len() > 0,
        n > 0 ==> digits_of(n)[0] != 0x30,
        n == 0 ==> digits_of(n).len() == 1,
    decreases n,
{
    if n >= 10 {
        first_digit(n / 10);
    }
}

/// The table file suffix.
fn sst_suffix_bytes() -> (r: Vec<u8>)
    ensures
        r@ == sst_suffix(),
{
    let mut s: Vec<u8> = Vec::new();
    s.push(0x2e);
    s.push(0x73);
    s.push(0x73);
    s.push(0x74);
    assert(s@ =~= sst_suffix());
    s
}

/// The log file suffix.
fn wal_suffix_bytes() -> (r: Vec<u8>)
    ensures
        r@ == wal_suffix(),
{
    let mut s: Vec<u8> = Vec::new();
    s.push(0x2e);
    s.push(0x77);
    s.push(0x61);
    s.push(0x6c);
    assert(s@ =~= wal_suffix());
    s
}

/// Whether `s` ends with `suffix`.
fn bytes_end_with(s: &[u8], suffix: &[u8]) -> (r: bool)
    ensures
        r == ends_with(s@, suffix@),
{
    if s.len() < suffix.len() {
        return false;
    }
    let tail = vstd::slice::slice_subrange(s, s.len() - suffix.len(), s.len());
    assert(tail@ =~= s@.skip(s@.len() - suffix@.len()));
    bytes_eq(tail, suffix)
}

/// The number that decimal digits from `from` to `to` spell, if they are digits
/// and it fits.
fn parse_digits(s: &[u8], from: usize, to: usize) -> (r: Option<u64>)
    requires
        from <= to <= s@.len(),
    ensures
        r == digits_number(s@.subrange(from as int, to as int)),
{
    let ghost part = s@.subrange(from as int, to as int);
    if from == to {
        return None;
    }
    let mut n: u64 = 0;
    let mut i: usize = from;
    assert(part.take(0) =~= Seq::empty());
    while i < to
        invariant
            from <= i <= to <= s@.len(),
            part == s@.subrange(from as int, to as int),
            forall|j: int| 0 <= j < i - from ==> is_digit(#[trigger] part[j]),
            n == digits_value(part.take(i - from)),
        decreases to - i,
    {
        let b = s[i];
        let ghost k = i - from;
        assert(part[k] == b);
        if b < 0x30 || 0x39 < b {
            assert(!is_digit(part[k]));
            return None;
        }
        let d = (b - 0x30) as u64;
        proof {
            assert(part.take(k + 1).drop_last() =~= part.take(k));
            assert(part.take(k + 1).last() == b);
        }
        if n > (u64::MAX - d) / 10 {
            proof {
                assert(digits_value(part.take(k + 1)) > u64::MAX);
                digits_grow(part, k + 1);
            }
            return None;
        }
        n = n * 10 + d;
        i = i + 1;
    }
    assert(part.take(to - from) =~= part);
    Some(n)
}

/// More digits do not spell less.
proof fn digits_grow(s: Seq<u8>, n: int)
    requires
        0 <= n <= s.len(),
    ensures
        digits_value(s.take(n)) <= digits_value(s),
    decreases s.len() - n,
{
    if n == s.len() {
        assert(s.take(n) =~= s);
    } else {
        digits_grow(s, n + 1);
        assert(s.take(n + 1).drop_last() =~= s.take(n));
    }
}

/// The number of the table that a file name tells, if it is one of a table file.
pub fn parse_sst_name(name: &[u8]) -> (r: Option<u64>)
    ensures
        r == sst_number(name@),
{
    let suffix = sst_suffix_bytes();
    if !bytes_end_with(name, suffix.as_slice()) {
        return None;
    }
    let mut end: usize = name.len();
    assert(name@.take(end as int) =~= name@);
    while bytes_end_with(vstd::slice::slice_subrange(name, 0, end), suffix.as_slice())
        invariant
            end <= name@.len(),
            suffix@ == sst_suffix(),
            trimmed(name@) == trimmed(name@.take(end as int)),
        decreases end,
    {
        let ghost s = name@.take(end as int);
        assert(name@.subrange(0, end as int) =~= s);
        assert(s.take(s.len() - 4) =~= name@.take(end - 4));
        end = end - 4;
    }
    let ghost s = name@.take(end as int);
    assert(name@.subrange(0, end as int) =~= s);
    if end > 0 && name[0] == 0x2b {
        assert(name@.subrange(1, end as int) =~= s.drop_first());
        parse_digits(name, 1, end)
    } else {
        parse_digits(name, 0, end)
    }
}

/// Write the decimal digits of a number.
fn push_digits(out: &mut Vec<u8>, n: u64)
    ensures
        final(out)@ == old(out)@ + digits_of(n as nat),
    decreases n,
{
    let ghost start = out@;
    if n >= 10 {
        push_digits(out, n / 10);
    }
    out.push(0x30 + (n % 10) as u8);
    assert(out@ =~= start + digits_of(n as nat));
}

/// The name of the file of a table.
pub fn sst_file_name(id: u64) -> (r: Vec<u8>)
    ensures
        r@ == sst_name(id),
{
    let mut digits: Vec<u8> = Vec::new();
    push_digits(&mut digits, id);
    assert(digits@ =~= digits_of(id as nat));
    let mut name: Vec<u8> = Vec::new();
    let mut i: usize = digits.len();
    let ghost k = 6 - digits@.len();
    while i < 6
        invariant
            digits@.len() <= i,
            i <= 6 || i == digits@.len(),
            name@.len() == i - digits@.len(),
            forall|j: int| 0 <= j < name@.len() ==> name@[j] == 0x30,
        decreases 6 - i,
    {
        name.push(0x30);
        i = i + 1;
    }
    crate::bytes::append_bytes(&mut name, digits.as_slice());
    assert(name@ =~= padded_digits(id as nat));
    let suffix = sst_suffix_bytes();
    crate::bytes::append_bytes(&mut name, suffix.as_slice());
    name
}

/// The first name of a log file among names, or the name of a new one.
pub open spec fn wal_name(names: Seq<Seq<u8>>) -> Seq<u8>
    decreases names.len(),
{
    if names.len() == 0 {
        default_wal_name()
    } else if ends_with(names[0], wal_suffix()) {
        names[0]
    } else {
        wal_name(names.drop_first())
    }
}

/// The log file of a directory is the first whose name ends in ".wal", or a new one
/// named "000001.wal".
pub proof fn wal_name_is_first(names: Seq<Seq<u8>>, i: int)
    requires
        0 <= i <= names.len(),
        forall|j: int|
            0 <= j < i ==> (#[trigger] names[j]).len() < 4 || names[j].skip(names[j].len() - 4)
                != seq![0x2eu8, 0x77, 0x61, 0x6c],
    ensures
        i < names.len() && names[i].len() >= 4 && names[i].skip(names[i].len() - 4) == seq![
            0x2eu8,
            0x77,
            0x61,
            0x6c,
        ] ==> wal_name(names) == names[i],
        i == names.len() ==> wal_name(names) == seq![
            0x30u8,
            0x30,
            0x30,
            0x30,
            0x30,
            0x31,
            0x2e,
            0x77,
            0x61,
            0x6c,
        ],
    decreases names.len(),
{
    assert(wal_suffix() =~= seq![0x2eu8, 0x77, 0x61, 0x6c]);
    assert(default_wal_name() =~= seq![
        0x30u8,
        0x30,
        0x30,
        0x30,
        0x30,
        0x31,
        0x2e,
        0x77,
        0x61,
        0x6c,
    ]);
    if i > 0 {
        let rest = names.drop_first();
        assert(names[0].len() < 4 || names[0].skip(names[0].len() - 4) != wal_suffix());
        assert forall|j: int| 0 <= j < i - 1 implies (#[trigger] rest[j]).len() < 4 || rest[j].skip(
            rest[j].len() - 4,
        ) != seq![0x2eu8, 0x77, 0x61, 0x6c] by {
            assert(names[j + 1] == rest[j]);
        }
        wal_name_is_first(rest, i - 1);
    }
}

/// The name of the log file of a directory: that of an existing one, or that of
/// a new one.
pub fn wal_name_for_dir(names: &Vec<Vec<u8>>) -> (r: Vec<u8>)
    ensures
        r@ == wal_name(crate::cli::words(names@)),
{
    let ghost all = crate::cli::words(names@);
    let suffix = wal_suffix_bytes();
    let mut i: usize = 0;
    assert(all.skip(0) =~= all);
    while i < names.len()
        invariant
            i <= names@.len(),
            all == crate::cli::words(names@),
            suffix@ == wal_suffix(),
            wal_name(all) == wal_name(all.skip(i as int)),
        decreases names@.len() - i,
    {
        assert(all.skip(i as int)[0] == names@[i as int]@);
        assert(all.skip(i as int).drop_first() =~= all.skip(i + 1));
        if bytes_end_with(names[i].as_slice(), suffix.as_slice()) {
            return copy_bytes(names[i].as_slice());
        }
        i = i + 1;
    }
    let mut name: Vec<u8> = Vec::new();
    name.push(0x30);
    name.push(0x30);
    name.push(0x30);
    name.push(0x30);
    name.push(0x30);
    name.push(0x31);
    crate::bytes::append_bytes(&mut name, suffix.as_slice());
    assert(name@ =~= default_wal_name());
    name
}

/// Report from a repair operation.
#[derive(Debug)]
pub struct RepairReport {
    pub corrupted_files: usize,
    pub recovered_ssts: usize,
}

/// A file of a directory: its name, and its bytes if they could be read.
pub struct FoundFile {
    pub name: Vec<u8>,
    pub data: Option<Vec<u8>>,
}

/// What a repair comes to.
pub struct Repair {
    pub report: RepairReport,
    /// The manifest of the tables that can be used, at level 0 and in the order
    /// of their numbers.
    pub manifest: Manifest,
    /// The places of the files that cannot be used and are to be removed.
    pub unusable: Vec<usize>,
}

/// Whether a file is a table file.
pub open spec fn is_table_file(f: FoundFile) -> bool {
    sst_number(f.name@) is Some
}

/// Whether a table file can be used.
pub open spec fn is_usable(f: FoundFile) -> bool {
    f.data is Some && parse_table(f.data->Some_0@) is Ok
}

/// A list of numbers with one more at its place: behind the last that is not
/// higher.
pub open spec fn insert_number(s: Seq<u64>, id: u64) -> Seq<u64>
    decreases s.len(),
{
    if s.len() == 0 || s.last() <= id {
        s.push(id)
    } else {
        insert_number(s.drop_last(), id).push(s.last())
    }
}

/// The numbers of the table files that can be used, in ascending order.
pub open spec fn usable_numbers(files: Seq<FoundFile>) -> Seq<u64>
    decreases files.len(),
{
    if files.len() == 0 {
        Seq::empty()
    } else if is_table_file(files.last()) && is_usable(files.last()) {
        insert_number(
            usable_numbers(files.drop_last()),
            sst_number(files.last().name@)->Some_0,
        )
    } else {
        usable_numbers(files.drop_last())
    }
}

/// The places of the table files that cannot be used.
pub open spec fn unusable_places(files: Seq<FoundFile>) -> Seq<usize>
    decreases files.len(),
{
    if files.len() == 0 {
        Seq::empty()
    } else if is_table_file(files.last()) && !is_usable(files.last()) {
        unusable_places(files.drop_last()).push((files.len() - 1) as usize)
    } else {
        unusable_places(files.drop_last())
    }
}

/// The metadata of a repaired table: its keys are not known.
pub open spec fn repaired_meta(id: u64) -> MetaView {
    MetaView { id, level: 0, min_key: Seq::empty(), max_key: Seq::empty() }
}

/// The metadata of repaired tables.
pub open spec fn repaired_metas(ids: Seq<u64>) -> Seq<MetaView> {
    Seq::new(ids.len(), |i: int| repaired_meta(ids[i]))
}

/// The levels of a repaired database.
pub open spec fn repaired_levels(ids: Seq<u64>) -> Seq<Seq<MetaView>> {
    if ids.len() == 0 {
        Seq::empty()
    } else {
        seq![repaired_metas(ids)]
    }
}

/// A repaired database lists each of its tables once for each number, in their
/// order, at level 0, with keys that are not known; without tables it lists nothing.
pub proof fn repaired_tables_are_listed(ids: Seq<u64>, i: int)
    ensures
        ids.len() == 0 ==> repaired_levels(ids).len() == 0,
        ids.len() > 0 ==> repaired_levels(ids).len() == 1 && repaired_levels(ids)[0].len()
            == ids.len(),
        0 <= i < ids.len() ==> repaired_levels(ids)[0][i].id == ids[i]
            && repaired_levels(ids)[0][i].level == 0 && repaired_levels(ids)[0][i].min_key.len()
            == 0 && repaired_levels(ids)[0][i].max_key.len() == 0,
{
}

/// Where a number goes in a list.
proof fn insert_number_at(s: Seq<u64>, id: u64, at: int)
    requires
        0 <= at <= s.len(),
        at > 0 ==> s[at - 1] <= id,
        forall|i: int| at <= i < s.len() ==> s[i] > id,
    ensures
        insert_number(s, id) == s.insert(at, id),
    decreases s.len(),
{
    if s.len() == 0 || s.last() <= id {
        assert(at == s.len());
        assert(s.push(id) =~= s.insert(at, id));
    } else {
        let front = s.drop_last();
        assert(at < s.len());
        insert_number_at(front, id, at);
        assert(front.insert(at, id).push(s.last()) =~= s.insert(at, id));
    }
}

/// Put a number in its place.
fn insert_in_order(ids: &mut Vec<u64>, id: u64)
    ensures
        final(ids)@ == insert_number(old(ids)@, id),
{
    let mut at: usize = ids.len();
    while at > 0 && ids[at - 1] > id
        invariant
            at <= ids@.len(),
            forall|i: int| at <= i < ids@.len() ==> ids@[i] > id,
        decreases at,
    {
        at = at - 1;
    }
    proof {
        insert_number_at(ids@, id, at as int);
    }
    ids.insert(at, id);
}

/// A number that is put in its place is in the list, with all that were there, and
/// an ascending list stays ascending.
proof fn insert_number_keeps(s: Seq<u64>, id: u64)
    ensures
        insert_number(s, id).len() == s.len() + 1,
        insert_number(s, id).to_multiset() == s.to_multiset().insert(id),
        (forall|i: int, j: int| 0 <= i <= j < s.len() ==> s[i] <= s[j]) ==> (forall|i: int, j: int|
            0 <= i <= j < s.len() + 1 ==> insert_number(s, id)[i] <= insert_number(s, id)[j]),
    decreases s.len(),
{
    broadcast use vstd::seq_lib::group_to_multiset_ensures;

    if s.len() == 0 || s.last() <= id {
    } else {
        let front = s.drop_last();
        insert_number_keeps(front, id);
        assert(front.push(s.last()) =~= s);
        let all = insert_number(s, id);
        let less = insert_number(front, id);
        if forall|i: int, j: int| 0 <= i <= j < s.len() ==> s[i] <= s[j] {
            assert forall|i: int, j: int| 0 <= i <= j < front.len() implies front[i] <= front[j] by {
                assert(s[i] <= s[j]);
            }
            assert forall|i: int| 0 <= i < less.len() implies less[i] <= s.last() by {
                assert(less.to_multiset().contains(less[i]));
                if less[i] != id {
                    assert(front.to_multiset().contains(less[i]));
                    assert(front.contains(less[i]));
                    let k = choose|k: int| 0 <= k < front.len() && front[k] == less[i];
                    assert(s[k] <= s[s.len() - 1]);
                }
            }
            assert forall|i: int, j: int| 0 <= i <= j < all.len() implies all[i] <= all[j] by {
                if j < less.len() {
                    assert(less[i] <= less[j]);
                }
            }
        }
        assert(less.push(s.last()).to_multiset() =~= s.to_multiset().insert(id));
    }
}

/// A table file that can be read is recovered, whatever its size: its number is in
/// the list, and its place is not among those to be removed. One that cannot is
/// among those, and its place is listed once. Nothing else is in either list.
pub proof fn repair_recovers_readable(files: Seq<FoundFile>)
    requires
        files.len() <= usize::MAX,
    ensures
        forall|i: int|
            0 <= i < files.len() && sst_number((#[trigger] files[i]).name@) is Some
                && files[i].data is Some && parse_table(files[i].data->Some_0@) is Ok ==> {
                &&& usable_numbers(files).contains(sst_number(files[i].name@)->Some_0)
                &&& !unusable_places(files).contains(i as usize)
            },
        forall|i: int|
            0 <= i < files.len() && sst_number((#[trigger] files[i]).name@) is Some && !(
            files[i].data is Some && parse_table(files[i].data->Some_0@) is Ok)
                ==> unusable_places(files).contains(i as usize),
        forall|n: u64| #[trigger]
            usable_numbers(files).contains(n) ==> exists|i: int|
                0 <= i < files.len() && sst_number((#[trigger] files[i]).name@) == Some(n)
                    && files[i].data is Some && parse_table(files[i].data->Some_0@) is Ok,
        forall|k: int|
            0 <= k < unusable_places(files).len() ==> {
                let i = #[trigger] unusable_places(files)[k] as int;
                &&& i < files.len()
                &&& sst_number(files[i].name@) is Some
                &&& !(files[i].data is Some && parse_table(files[i].data->Some_0@) is Ok)
            },
        forall|a: int, b: int|
            0 <= a < b < unusable_places(files).len() ==> unusable_places(files)[a]
                < unusable_places(files)[b],
        forall|a: int, b: int|
            0 <= a <= b < usable_numbers(files).len() ==> usable_numbers(files)[a]
                <= usable_numbers(files)[b],
        usable_numbers(files).len() + unusable_places(files).len() == files.filter(
            |f: FoundFile| sst_number(f.name@) is Some,
        ).len(),
    decreases files.len(),
{
    broadcast use vstd::seq_lib::group_to_multiset_ensures;

    reveal_with_fuel(Seq::filter, 1);
    if files.len() > 0 {
        let front = files.drop_last();
        let f = files.last();
        let n = files.len() - 1;
        repair_recovers_readable(front);
        let ids = usable_numbers(front);
        let all = usable_numbers(files);
        let lost = unusable_places(front);
        let gone = unusable_places(files);
        if sst_number(f.name@) is Some {
            insert_number_keeps(ids, sst_number(f.name@)->Some_0);
        }
        assert forall|m: u64| #[trigger] all.contains(m) implies ids.contains(m) || (sst_number(
            f.name@,
        ) == Some(m) && is_usable(f)) by {
            assert(all.to_multiset().contains(m));
            assert(ids.to_multiset().contains(m) ==> ids.contains(m));
        }
        assert forall|m: u64| ids.contains(m) implies #[trigger] all.contains(m) by {
            assert(ids.to_multiset().contains(m));
            assert(all.to_multiset().contains(m));
        }
        if sst_number(f.name@) is Some && is_usable(f) {
            assert(all.to_multiset().contains(sst_number(f.name@)->Some_0));
            assert(all.contains(sst_number(f.name@)->Some_0));
        }
        assert forall|k: int| 0 <= k < lost.len() implies gone[k] == lost[k] by {}
        assert forall|p: usize| lost.contains(p) implies #[trigger] gone.contains(p) by {
            let k = choose|k: int| 0 <= k < lost.len() && lost[k] == p;
            assert(gone[k] == p);
        }
        assert forall|k: int| 0 <= k < lost.len() implies (#[trigger] lost[k]) < n by {}
        assert forall|p: usize| #[trigger] gone.contains(p) && p < n implies lost.contains(p) by {
            let k = choose|k: int| 0 <= k < gone.len() && gone[k] == p;
            assert(lost[k] == p);
        }
        if sst_number(f.name@) is Some && !is_usable(f) {
            assert(gone[gone.len() - 1] == n as usize);
            assert(gone.contains(n as usize));
        }
        assert forall|i: int|
            0 <= i < files.len() && sst_number((#[trigger] files[i]).name@) is Some
                && files[i].data is Some && parse_table(files[i].data->Some_0@) is Ok implies {
            &&& usable_numbers(files).contains(sst_number(files[i].name@)->Some_0)
            &&& !unusable_places(files).contains(i as usize)
        } by {
            if i < n {
                assert(front[i] == files[i]);
            } else if gone.contains(i as usize) {
                let k = choose|k: int| 0 <= k < gone.len() && gone[k] == i as usize;
                assert(k < lost.len());
                assert(lost[k] < n);
            }
        }
        assert forall|i: int|
            0 <= i < files.len() && sst_number((#[trigger] files[i]).name@) is Some && !(
            files[i].data is Some && parse_table(files[i].data->Some_0@) is Ok) implies gone.contains(
            i as usize,
        ) by {
            if i < n {
                assert(front[i] == files[i]);
            }
        }
        assert forall|m: u64| #[trigger] all.contains(m) implies exists|i: int|
            0 <= i < files.len() && sst_number((#[trigger] files[i]).name@) == Some(m)
                && files[i].data is Some && parse_table(files[i].data->Some_0@) is Ok by {
            if ids.contains(m) {
                let i = choose|i: int|
                    0 <= i < front.len() && sst_number((#[trigger] front[i]).name@) == Some(m)
                        && front[i].data is Some && parse_table(front[i].data->Some_0@) is Ok;
                assert(files[i] == front[i]);
            } else {
                assert(files[n] == f);
            }
        }
        assert forall|k: int| 0 <= k < gone.len() implies {
            let i = #[trigger] gone[k] as int;
            &&& i < files.len()
            &&& sst_number(files[i].name@) is Some
            &&& !(files[i].data is Some && parse_table(files[i].data->Some_0@) is Ok)
        } by {
            if k < lost.len() {
                assert(front[lost[k] as int] == files[lost[k] as int]);
            }
        }
    }
}

/// A file that was written for a table of sorted entries is recovered under its
/// name, whatever it holds and however large it is.
pub proof fn repair_recovers_written(
    files: Seq<FoundFile>,
    i: int,
    id: u64,
    s: Seq<Entry>,
    block_size: int,
    bits_per_key: nat,
)
    requires
        files.len() <= usize::MAX,
        0 <= i < files.len(),
        files[i].name@ == sst_name(id),
        files[i].data is Some,
        is_file_of(files[i].data->Some_0@, s, block_size, bits_per_key),
        table_fits(s, block_size, bits_per_key),
        sorted(s),
    ensures
        usable_numbers(files).contains(id),
        !unusable_places(files).contains(i as usize),
{
    file_opens(files[i].data->Some_0@, s, block_size, bits_per_key);
    sst_name_tells_number(id);
    repair_recovers_readable(files);
}

/// Repair a database from the files in its directory: tell which table files can
/// be used, and rebuild the manifest from them.
pub fn repair(files: &Vec<FoundFile>) -> (r: Repair)
    ensures
        r.manifest@ == repaired_levels(usable_numbers(files@)),
        r.unusable@ == unusable_places(files@),
        r.report.recovered_ssts == usable_numbers(files@).len(),
        r.report.corrupted_files == unusable_places(files@).len(),
        forall|i: int|
            0 <= i < files@.len() && sst_number((#[trigger] files@[i]).name@) is Some
                && files@[i].data is Some && parse_table(files@[i].data->Some_0@) is Ok ==> {
                &&& r.manifest@.len() == 1
                &&& exists|j: int|
                    0 <= j < r.manifest@[0].len() && (#[trigger] r.manifest@[0][j]).id
                        == sst_number(files@[i].name@)->Some_0
                &&& !r.unusable@.contains(i as usize)
            },
{
    let ghost all = files@;
    let mut ids: Vec<u64> = Vec::new();
    let mut unusable: Vec<usize> = Vec::new();
    let mut i: usize = 0;
    assert(all.take(0) =~= Seq::empty());
    while i < files.len()
        invariant
            i <= files@.len(),
            all == files@,
            ids@ == usable_numbers(all.take(i as int)),
            unusable@ == unusable_places(all.take(i as int)),
        decreases files@.len() - i,
    {
        let ghost upto = all.take(i + 1);
        proof {
            assert(upto.drop_last() =~= all.take(i as int));
            assert(upto.last() == all[i as int]);
        }
        if let Some(id) = parse_sst_name(files[i].name.as_slice()) {
            let usable = match &files[i].data {
                None => false,
                Some(data) => match SSTableReader::open(copy_bytes(data.as_slice())) {
                    Ok(_) => true,
                    Err(_) => false,
                },
            };
            if usable {
                insert_in_order(&mut ids, id);
            } else {
                unusable.push(i);
            }
        }
        i = i + 1;
    }
    assert(all.take(i as int) =~= all);
    let mut manifest = Manifest::new();
    let mut j: usize = 0;
    assert(ids@.take(0) =~= Seq::empty());
    while j < ids.len()
        invariant
            j <= ids@.len(),
            manifest@ == repaired_levels(ids@.take(j as int)),
        decreases ids@.len() - j,
    {
        let ghost before = manifest@;
        let empty: Vec<u8> = Vec::new();
        let also_empty: Vec<u8> = Vec::new();
        assert(empty@ =~= Seq::empty());
        assert(also_empty@ =~= Seq::empty());
        manifest.add_sst(0, SSTMeta::new(ids[j], 0, empty, also_empty));
        proof {
            let upto = ids@.take(j + 1);
            let done = ids@.take(j as int);
            let m = repaired_meta(ids@[j as int]);
            assert(repaired_metas(upto) =~= repaired_metas(done).push(m));
            assert(at_level(before, 0) =~= repaired_metas(done));
            assert(manifest@ =~= repaired_levels(upto));
        }
        j = j + 1;
    }
    assert(ids@.take(j as int) =~= ids@);
    proof {
        repair_recovers_readable(all);
        assert forall|i: int|
            0 <= i < all.len() && sst_number((#[trigger] all[i]).name@) is Some
                && all[i].data is Some && parse_table(all[i].data->Some_0@) is Ok implies {
            &&& manifest@.len() == 1
            &&& exists|j: int|
                0 <= j < manifest@[0].len() && (#[trigger] manifest@[0][j]).id == sst_number(
                    all[i].name@,
                )->Some_0
        } by {
            let id = sst_number(all[i].name@)->Some_0;
            assert(ids@.contains(id));
            let j = choose|j: int| 0 <= j < ids@.len() && ids@[j] == id;
            assert(manifest@[0][j].id == id);
        }
    }
    Repair {
        report: RepairReport { corrupted_files: unusable.len(), recovered_ssts: ids.len() },
        manifest,
        unusable,
    }
}

/// The numbers increase strictly.
pub open spec fn ascending_numbers(ids: Seq<u64>) -> bool {
    forall|i: int, j: int| 0 <= i < j < ids.len() ==> ids[i] < ids[j]
}

/// The files hold a sound table for each number.
pub open spec fn sound_files(ids: Seq<u64>, files: Seq<(u64, Seq<u8>)>) -> bool {
    forall|i: int|
        0 <= i < ids.len() ==> {
            &&& #[trigger] ids[i] < u64::MAX
            &&& file_of(files, ids[i]) is Some
            &&& parse_table(file_of(files, ids[i])->Some_0) is Ok
            &&& parse_table(file_of(files, ids[i])->Some_0)->Ok_0.sound()
        }
}

/// The tables of a repaired database.
pub open spec fn repaired_tables(ids: Seq<u64>, files: Seq<(u64, Seq<u8>)>) -> Seq<TableEntry> {
    Seq::new(
        ids.len(),
        |i: int|
            (repaired_meta(ids[i]), parse_table(file_of(files, ids[i])->Some_0)->Ok_0),
    )
}

/// A repaired database opens with all its sound tables, in the order of their
/// numbers, and they are laid out as the engine needs it.
pub proof fn repaired_opens(ids: Seq<u64>, files: Seq<(u64, Seq<u8>)>)
    requires
        ascending_numbers(ids),
        sound_files(ids, files),
    ensures
        opened(flattened(repaired_levels(ids)), files) == Ok::<Seq<TableEntry>, Seq<char>>(
            repaired_tables(ids, files),
        ),
        tidy(repaired_tables(ids, files), repaired_levels(ids)),
{
    let levels = repaired_levels(ids);
    let tables = repaired_tables(ids, files);
    if ids.len() > 0 {
        assert(levels.drop_last() =~= Seq::<Seq<MetaView>>::empty());
        assert(flattened(levels.drop_last()) =~= Seq::empty());
        assert(flattened(levels) =~= repaired_metas(ids));
    } else {
        assert(flattened(levels) =~= repaired_metas(ids));
    }
    repaired_open_prefix(ids, files, ids.len() as int);
    assert(ids.take(ids.len() as int) =~= ids);
    assert forall|i: int| 0 <= i < tables.len() implies (#[trigger] tables[i]).1.sound() by {
        assert(ids[i] < u64::MAX);
    }
    assert forall|l: int| #[trigger] at_level(levels, l) == listed(tables, l) by {
        repaired_listed(ids, files, l);
        if ids.len() == 0 {
            assert(repaired_metas(ids) =~= Seq::empty());
        }
    }
}

proof fn repaired_open_prefix(ids: Seq<u64>, files: Seq<(u64, Seq<u8>)>, n: int)
    requires
        sound_files(ids, files),
        0 <= n <= ids.len(),
    ensures
        opened(repaired_metas(ids.take(n)), files) == Ok::<Seq<TableEntry>, Seq<char>>(
            repaired_tables(ids.take(n), files),
        ),
    decreases n,
{
    let upto = ids.take(n);
    if n == 0 {
        assert(repaired_metas(upto) =~= Seq::empty());
        assert(repaired_tables(upto, files) =~= Seq::empty());
    } else {
        repaired_open_prefix(ids, files, n - 1);
        let front = ids.take(n - 1);
        let tables = repaired_tables(front, files);
        assert(repaired_metas(upto).drop_last() =~= repaired_metas(front));
        assert(ids[n - 1] < u64::MAX);
        let t = repaired_tables(upto, files).last();
        if tables.len() > 0 {
            assert(tables.last().0.level == 0);
        }
        assert(level_end(tables, 0) == tables.len());
        assert(place(tables, t) =~= repaired_tables(upto, files));
    }
}

proof fn repaired_listed(ids: Seq<u64>, files: Seq<(u64, Seq<u8>)>, level: int)
    ensures
        listed(repaired_tables(ids, files), level) == if level == 0 {
            repaired_metas(ids)
        } else {
            Seq::empty()
        },
    decreases ids.len(),
{
    let tables = repaired_tables(ids, files);
    if ids.len() == 0 {
        assert(repaired_metas(ids) =~= Seq::empty());
    } else {
        let front = ids.drop_last();
        repaired_listed(front, files, level);
        assert(tables.drop_last() =~= repaired_tables(front, files));
        assert(repaired_metas(ids) =~= repaired_metas(front).push(repaired_meta(ids.last())));
    }
}

} // verus!
