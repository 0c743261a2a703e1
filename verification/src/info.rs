//! A report on tables: for each the data file and the index file with
//! their sizes, and of the index the number of entries, the orders it is
//! sorted in, the least and the greatest key, and whether each key occurs
//! once only.

use crate::canonical::{is_cbor_sorted, Canonical};
use crate::cbor::Scalar;
use crate::error::{Error, ErrorKind};
use crate::natural::{
    entries_in_order, lemma_entries_in_order, lemma_natural_key_injective, natural_key, natural_lt,
    Key, Natural,
};
use crate::order::{
    encoded, entry_le, entry_order, has_keys_sorted_in, key_order, keys_of, keys_sorted, ByteOrder,
};
use crate::read::{create_index_path, index_path_of};
use crate::sstable_reader::{decode_index, index_entries, SSTableIndex};
use crate::text::{decimal, push_decimal, text_of, ToText};
use crate::traits::Terminal;
use crate::util::get_min_max;
use vstd::prelude::*;
use vstd::relations::sorted_by;
use vstd::string::StringExecFns;

verus! {

/// A text with a colour and a style, as the `colored` crate holds it.
#[verifier::external_type_specification]
#[verifier::external_body]
pub struct ExColoredString(colored::ColoredString);

/// `text` in red. Calls `Colorize::red`.
#[verifier::external_body]
fn red(text: &str) -> colored::ColoredString {
    colored::Colorize::red(text)
}

/// `text` in green. Calls `Colorize::green`.
#[verifier::external_body]
fn green(text: &str) -> colored::ColoredString {
    colored::Colorize::green(text)
}

/// `text` in bold, with the colour it has. Calls `Colorize::bold`.
#[verifier::external_body]
fn bold(text: colored::ColoredString) -> colored::ColoredString {
    colored::Colorize::bold(text)
}

/// `text` as it is to be shown. Calls the `Display` implementation of
/// `ColoredString`, which gives the text with the escape sequences for its
/// colour and style where colours are on, and the plain text where they
/// are off. Which of the two depends on the environment of the process, so
/// nothing is said of the result.
#[verifier::external_body]
fn shown(text: &colored::ColoredString) -> String {
    format!("{}", text)
}

/// The marks that a report shows, painted as they are to be shown.
#[derive(Debug)]
pub struct Marks {
    /// For a file that is missing.
    pub missing: String,
    /// For a file that exists.
    pub exists: String,
    /// For an index sorted in natural and in canonical order.
    pub native_cbor: String,
    /// For an index sorted in natural order only.
    pub native: String,
    /// For an index sorted in canonical order only.
    pub cbor: String,
    /// For an index sorted in neither order.
    pub unsorted: String,
}

/// The marks as a specification sees them.
pub struct MarksView {
    pub missing: Seq<char>,
    pub exists: Seq<char>,
    pub native_cbor: Seq<char>,
    pub native: Seq<char>,
    pub cbor: Seq<char>,
    pub unsorted: Seq<char>,
}

impl View for Marks {
    type V = MarksView;

    open spec fn view(&self) -> MarksView {
        MarksView {
            missing: self.missing@,
            exists: self.exists@,
            native_cbor: self.native_cbor@,
            native: self.native@,
            cbor: self.cbor@,
            unsorted: self.unsorted@,
        }
    }
}

impl Marks {
    /// The marks in their colours: what is well in green, what is not in
    /// red, the marks for files in bold.
    pub fn painted() -> Marks {
        Marks {
            missing: shown(&bold(red("(missing \u{2718})"))),
            exists: shown(&bold(green("(exists \u{2714})"))),
            native_cbor: shown(&green("native,cbor")),
            native: shown(&green("native")),
            cbor: shown(&green("cbor")),
            unsorted: shown(&red("false")),
        }
    }
}

/// An index file: its size and its bytes.
#[derive(Debug)]
pub struct IndexFile {
    pub size: u64,
    pub bytes: Vec<u8>,
}

/// What is known of one table when it is reported on: its path, the size
/// of its data file if that file exists, and its index file if that file
/// exists.
#[derive(Debug)]
pub struct InfoInput {
    pub path: String,
    pub data_size: Option<u64>,
    pub index: Option<IndexFile>,
}

/// A table to report on, as a specification sees it.
pub struct InfoInputView {
    pub path: Seq<char>,
    pub data_size: Option<u64>,
    pub index: Option<(u64, Seq<u8>)>,
}

impl View for InfoInput {
    type V = InfoInputView;

    open spec fn view(&self) -> InfoInputView {
        InfoInputView {
            path: self.path@,
            data_size: self.data_size,
            index: match self.index {
                Some(file) => Some((file.size, file.bytes@)),
                None => None,
            },
        }
    }
}

/// Whether no key occurs twice among `entries`.
pub open spec fn keys_distinct(entries: Seq<(Scalar, u64)>) -> bool {
    forall|i: int, j: int|
        0 <= i < j < entries.len() ==> (#[trigger] entries[i]).0 != (#[trigger] entries[j]).0
}

/// Whether `key` is a key of `entries` that none of their keys comes
/// before in natural order.
pub open spec fn is_least_key(entries: Seq<(Scalar, u64)>, key: Scalar) -> bool {
    &&& exists|i: int| 0 <= i < entries.len() && (#[trigger] entries[i]).0 == key
    &&& forall|j: int| 0 <= j < entries.len() ==> !natural_lt((#[trigger] entries[j]).0, key)
}

/// Whether `key` is a key of `entries` that comes before none of their
/// keys in natural order.
pub open spec fn is_greatest_key(entries: Seq<(Scalar, u64)>, key: Scalar) -> bool {
    &&& exists|i: int| 0 <= i < entries.len() && (#[trigger] entries[i]).0 == key
    &&& forall|j: int| 0 <= j < entries.len() ==> !natural_lt(key, (#[trigger] entries[j]).0)
}

/// Whether `entries` are sorted in canonical order, entries with one key
/// by offset.
pub open spec fn entries_cbor_sorted(entries: Seq<(Scalar, u64)>) -> bool {
    sorted_by(
        entries.map_values(|e: (Scalar, u64)| (e.0.encoding(), e.1)),
        entry_order::<Canonical>(),
    )
}

/// The mark for the orders in which `entries` are sorted.
pub open spec fn sorted_mark(entries: Seq<(Scalar, u64)>, marks: MarksView) -> Seq<char> {
    if entries_in_order(entries) {
        if entries_cbor_sorted(entries) {
            marks.native_cbor
        } else {
            marks.native
        }
    } else {
        if entries_cbor_sorted(entries) {
            marks.cbor
        } else {
            marks.unsorted
        }
    }
}

/// `true` or `false`, spelled out.
pub open spec fn bool_text(b: bool) -> Seq<char> {
    if b {
        "true"@
    } else {
        "false"@
    }
}

/// The lines that report on an index: the number of its entries, the
/// orders it is sorted in, its least and its greatest key where it has an
/// entry, and whether each key occurs once only.
pub open spec fn index_report(entries: Seq<(Scalar, u64)>, marks: MarksView) -> Seq<Seq<char>> {
    let head = seq![
        " count: "@ + decimal(entries.len()),
        " sorted: "@ + sorted_mark(entries, marks),
    ];
    let ends = if entries.len() > 0 {
        seq![
            " min: "@ + text_of(choose|k: Scalar| is_least_key(entries, k)),
            " max: "@ + text_of(choose|k: Scalar| is_greatest_key(entries, k)),
        ]
    } else {
        Seq::empty()
    };
    head + ends + seq![" unique: "@ + bool_text(keys_distinct(entries))]
}

/// The lines that report on one table, and the error that ended the
/// report, if one did: that of an index file that does not load.
pub open spec fn table_report(key_kind: crate::cbor_types::MajorType, input: InfoInputView, marks: MarksView) -> (
    Seq<Seq<char>>,
    Option<ErrorKind>,
) {
    let data = match input.data_size {
        None => seq!["data path: "@ + input.path + " "@ + marks.missing],
        Some(size) => seq![
            "data path: "@ + input.path + " "@ + marks.exists,
            " size: "@ + decimal(size as nat),
        ],
    };
    let start = seq!["---"@] + data;
    let index_path = index_path_of(input.path);
    match input.index {
        None => (start + seq!["index path: "@ + index_path + " "@ + marks.missing], None),
        Some((size, bytes)) => {
            let found = start + seq![
                "index path: "@ + index_path + " "@ + marks.exists,
                " size: "@ + decimal(size as nat),
            ];
            match decode_index(key_kind, bytes) {
                Err(e) => (found, Some(e)),
                Ok(entries) => (found + index_report(entries, marks), None),
            }
        },
    }
}

/// The lines that report on the tables from the `i`th on, and the error
/// that ended the report, if one did.
pub open spec fn report_from(
    key_kind: crate::cbor_types::MajorType,
    inputs: Seq<InfoInputView>,
    marks: MarksView,
    i: int,
) -> (Seq<Seq<char>>, Option<ErrorKind>)
    decreases inputs.len() - i,
{
    if i < 0 || i >= inputs.len() {
        (Seq::empty(), None)
    } else {
        let first = table_report(key_kind, inputs[i], marks);
        if first.1 is Some {
            first
        } else {
            let rest = report_from(key_kind, inputs, marks, i + 1);
            (first.0 + rest.0, rest.1)
        }
    }
}

/// The tables to report on, as a specification sees them.
pub open spec fn info_inputs_of(inputs: Seq<InfoInput>) -> Seq<InfoInputView> {
    inputs.map_values(|t: InfoInput| t@)
}

/// Two texts, one after the other.
fn join2(a: &str, b: &str) -> (r: String)
    ensures
        r@ == a@ + b@,
{
    let mut r: String = String::from_str(a);
    r.append(b);
    r
}

/// A label followed by a number in decimal.
fn labelled_number(label: &str, n: u64) -> (r: String)
    ensures
        r@ == label@ + decimal(n as nat),
{
    let mut r: String = String::from_str(label);
    push_decimal(&mut r, n);
    r
}

/// The line for a file: a label, the path, a space and a mark.
fn path_line(label: &str, path: &str, mark: &str) -> (r: String)
    ensures
        r@ == label@ + path@ + " "@ + mark@,
{
    let mut r: String = String::from_str(label);
    r.append(path);
    r.append(" ");
    r.append(mark);
    r
}

/// The natural order has one least key only.
proof fn lemma_least_key_is_unique<K: Key>(s: Seq<(K, u64)>, a: Scalar, b: Scalar)
    requires
        is_least_key(index_entries(s), a),
        is_least_key(index_entries(s), b),
    ensures
        a == b,
{
    let entries = index_entries(s);
    let i = choose|i: int| 0 <= i < entries.len() && (#[trigger] entries[i]).0 == a;
    let j = choose|j: int| 0 <= j < entries.len() && (#[trigger] entries[j]).0 == b;
    assert(!natural_lt(entries[i].0, b));
    assert(!natural_lt(entries[j].0, a));
    Natural::lemma_trichotomy(natural_key(a), natural_key(b));
    s[i].0.lemma_kind();
    s[j].0.lemma_kind();
    lemma_natural_key_injective(a, b);
}

/// The natural order has one greatest key only.
proof fn lemma_greatest_key_is_unique<K: Key>(s: Seq<(K, u64)>, a: Scalar, b: Scalar)
    requires
        is_greatest_key(index_entries(s), a),
        is_greatest_key(index_entries(s), b),
    ensures
        a == b,
{
    let entries = index_entries(s);
    let i = choose|i: int| 0 <= i < entries.len() && (#[trigger] entries[i]).0 == a;
    let j = choose|j: int| 0 <= j < entries.len() && (#[trigger] entries[j]).0 == b;
    assert(!natural_lt(b, entries[i].0));
    assert(!natural_lt(a, entries[j].0));
    Natural::lemma_trichotomy(natural_key(a), natural_key(b));
    s[i].0.lemma_kind();
    s[j].0.lemma_kind();
    lemma_natural_key_injective(a, b);
}

/// Whether no key occurs twice in `indices`, whose keys stand in natural
/// order: there it is enough to look at the entries that stand side by
/// side.
fn has_distinct_keys_in_order<K: Key>(indices: &[(K, u64)]) -> (r: bool)
    requires
        keys_sorted::<K, Natural>(indices@),
    ensures
        r == keys_distinct(index_entries(indices@)),
{
    let ghost entries = index_entries(indices@);
    let ghost keys = keys_of::<K, Natural>(indices@);
    if indices.len() < 2 {
        return true;
    }
    let mut j: usize = 1;
    while j < indices.len()
        invariant
            1 <= j <= indices@.len(),
            entries == index_entries(indices@),
            keys == keys_of::<K, Natural>(indices@),
            keys_sorted::<K, Natural>(indices@),
            forall|a: int, b: int|
                0 <= a < b < j ==> (#[trigger] entries[a]).0 != (#[trigger] entries[b]).0,
        decreases indices@.len() - j,
    {
        let same: bool = Natural::sign_of(&indices[j - 1].0, &indices[j].0) == 0;
        proof {
            indices@[j - 1].0.lemma_kind();
            indices@[j as int].0.lemma_kind();
            if same {
                lemma_natural_key_injective(entries[j - 1].0, entries[j as int].0);
            } else {
                assert forall|a: int| 0 <= a < j implies (#[trigger] entries[a]).0
                    != entries[j as int].0 by {
                    if a < j - 1 && entries[a].0 == entries[j as int].0 {
                        // A key that recurs behind its neighbour would
                        // hold the neighbour between two equal keys.
                        assert(key_order::<Natural>()(keys[a], keys[j - 1]));
                        assert(key_order::<Natural>()(keys[j - 1], keys[j as int]));
                        Natural::lemma_trichotomy(keys[a], keys[j - 1]);
                    }
                }
            }
        }
        if same {
            return false;
        }
        j += 1;
    }
    true
}

/// Whether no key occurs twice in `indices`.
pub fn has_distinct_keys<K: Key>(indices: &[(K, u64)]) -> (r: bool)
    ensures
        r == keys_distinct(index_entries(indices@)),
{
    if has_keys_sorted_in::<K, Natural>(indices) {
        return has_distinct_keys_in_order(indices);
    }
    let ghost entries = index_entries(indices@);
    let mut j: usize = 1;
    while j < indices.len()
        invariant
            1 <= j || indices@.len() == 0,
            j <= indices@.len() || indices@.len() == 0,
            entries == index_entries(indices@),
            forall|a: int, b: int|
                0 <= a < b < j ==> (#[trigger] entries[a]).0 != (#[trigger] entries[b]).0,
        decreases indices@.len() - j,
    {
        let mut i: usize = 0;
        while i < j
            invariant
                i <= j < indices@.len(),
                entries == index_entries(indices@),
                forall|a: int| 0 <= a < i ==> (#[trigger] entries[a]).0 != entries[j as int].0,
            decreases j - i,
        {
            let same: bool = Natural::sign_of(&indices[i].0, &indices[j].0) == 0;
            proof {
                indices@[i as int].0.lemma_kind();
                indices@[j as int].0.lemma_kind();
                if same {
                    lemma_natural_key_injective(entries[i as int].0, entries[j as int].0);
                }
            }
            if same {
                return false;
            }
            i += 1;
        }
        j += 1;
    }
    true
}

/// Writes the lines that report on the index `indices`.
pub fn write_index_report<K: Key>(indices: &Vec<(K, u64)>, marks: &Marks, writer: &mut Terminal)
    ensures
        final(writer)@ == old(writer)@ + index_report(index_entries(indices@), marks@),
{
    let ghost entries = index_entries(indices@);
    let count: usize = indices.len();
    let native: bool = has_keys_sorted_in::<K, Natural>(indices.as_slice());
    let cbor: bool = is_cbor_sorted(indices.as_slice());
    proof {
        lemma_entries_in_order::<K>(indices@);
        assert(encoded::<K, Canonical>(indices@) =~= entries.map_values(
            |e: (Scalar, u64)| (e.0.encoding(), e.1),
        ));
    }
    let mark: &String = if native {
        if cbor {
            &marks.native_cbor
        } else {
            &marks.native
        }
    } else {
        if cbor {
            &marks.cbor
        } else {
            &marks.unsorted
        }
    };
    writer.write_line(labelled_number(" count: ", count as u64));
    writer.write_line(join2(" sorted: ", mark.as_str()));
    if count > 0 {
        let (least, greatest): (&K, &K) = if native {
            proof {
                assert forall|j: int| 0 <= j < entries.len() implies !natural_lt(
                    (#[trigger] entries[j]).0,
                    entries[0].0,
                ) by {
                    Natural::lemma_trichotomy(natural_key(entries[0].0), natural_key(entries[0].0));
                }
                assert forall|j: int| 0 <= j < entries.len() implies !natural_lt(
                    entries[count - 1].0,
                    (#[trigger] entries[j]).0,
                ) by {
                    Natural::lemma_trichotomy(
                        natural_key(entries[count - 1].0),
                        natural_key(entries[count - 1].0),
                    );
                }
            }
            (&indices[0].0, &indices[count - 1].0)
        } else {
            match get_min_max(indices.as_slice()) {
                Some((min, max)) => {
                    proof {
                        let e = encoded::<K, Natural>(indices@);
                        assert forall|j: int| 0 <= j < entries.len() implies !natural_lt(
                            (#[trigger] entries[j]).0,
                            min.0.scalar(),
                        ) by {
                            assert(entry_le::<Natural>(
                                crate::order::entry_bytes::<K, Natural>(*min),
                                e[j],
                            ));
                            Natural::lemma_trichotomy(
                                natural_key(min.0.scalar()),
                                natural_key(entries[j].0),
                            );
                        }
                        assert forall|j: int| 0 <= j < entries.len() implies !natural_lt(
                            max.0.scalar(),
                            (#[trigger] entries[j]).0,
                        ) by {
                            assert(entry_le::<Natural>(
                                e[j],
                                crate::order::entry_bytes::<K, Natural>(*max),
                            ));
                            Natural::lemma_trichotomy(
                                natural_key(max.0.scalar()),
                                natural_key(entries[j].0),
                            );
                        }
                        let i = choose|i: int| 0 <= i < indices@.len() && *min == #[trigger] indices@[i];
                        assert(entries[i].0 == min.0.scalar());
                        let i2 = choose|i: int|
                            0 <= i < indices@.len() && *max == #[trigger] indices@[i];
                        assert(entries[i2].0 == max.0.scalar());
                    }
                    (&min.0, &max.0)
                },
                None => (&indices[0].0, &indices[0].0),
            }
        };
        proof {
            assert(entries[0].0 == indices@[0].0.scalar());
            assert(entries[count - 1].0 == indices@[count - 1].0.scalar());
            assert(is_least_key(entries, least.scalar()));
            assert(is_greatest_key(entries, greatest.scalar()));
            lemma_least_key_is_unique::<K>(
                indices@,
                least.scalar(),
                choose|k: Scalar| is_least_key(entries, k),
            );
            lemma_greatest_key_is_unique::<K>(
                indices@,
                greatest.scalar(),
                choose|k: Scalar| is_greatest_key(entries, k),
            );
        }
        let least_text: String = least.to_text();
        writer.write_line(join2(" min: ", least_text.as_str()));
        let greatest_text: String = greatest.to_text();
        writer.write_line(join2(" max: ", greatest_text.as_str()));
    }
    let unique: bool = if native {
        has_distinct_keys_in_order(indices.as_slice())
    } else {
        has_distinct_keys(indices.as_slice())
    };
    writer.write_line(
        join2(
            " unique: ",
            if unique {
                "true"
            } else {
                "false"
            },
        ),
    );
    assert(writer@ =~= old(writer)@ + index_report(entries, marks@));
}

/// Writes the lines that report on one table.
fn write_table_report<K: Key>(input: InfoInput, marks: &Marks, writer: &mut Terminal) -> (r: Result<
    (),
    Error,
>)
    ensures
        final(writer)@ == old(writer)@ + table_report(K::kind(), input@, marks@).0,
        match table_report(K::kind(), input@, marks@).1 {
            None => r is Ok,
            Some(e) => r is Err && r->Err_0.kind == e,
        },
{
    writer.write_line(String::from_str("---"));
    match input.data_size {
        None => {
            writer.write_line(path_line("data path: ", input.path.as_str(), marks.missing.as_str()));
        },
        Some(size) => {
            writer.write_line(path_line("data path: ", input.path.as_str(), marks.exists.as_str()));
            writer.write_line(labelled_number(" size: ", size));
        },
    }
    let index_path: String = create_index_path(input.path.as_str());
    match input.index {
        None => {
            writer.write_line(path_line("index path: ", index_path.as_str(), marks.missing.as_str()));
            assert(writer@ =~= old(writer)@ + table_report(K::kind(), input@, marks@).0);
            Ok(())
        },
        Some(file) => {
            writer.write_line(path_line("index path: ", index_path.as_str(), marks.exists.as_str()));
            writer.write_line(labelled_number(" size: ", file.size));
            let ghost found = writer@;
            match SSTableIndex::<K>::from_bytes(file.bytes) {
                Err(e) => {
                    assert(writer@ =~= old(writer)@ + table_report(K::kind(), input@, marks@).0);
                    Err(e)
                },
                Ok(sstable_index) => {
                    write_index_report(&sstable_index.indices, marks, writer);
                    assert(writer@ =~= old(writer)@ + table_report(K::kind(), input@, marks@).0);
                    Ok(())
                },
            }
        },
    }
}

/// Writes the report on `inputs` to `writer`, with the marks given.
///
/// The report ends with the first index file that does not load, in the
/// error of that file, after the lines on the tables before it and on the
/// files of that table.
pub fn write_info<K: Key>(inputs: Vec<InfoInput>, marks: &Marks, writer: &mut Terminal) -> (r: Result<
    (),
    Error,
>)
    ensures
        final(writer)@ == old(writer)@ + report_from(
            K::kind(),
            info_inputs_of(inputs@),
            marks@,
            0,
        ).0,
        match report_from(K::kind(), info_inputs_of(inputs@), marks@, 0).1 {
            None => r is Ok,
            Some(e) => r is Err && r->Err_0.kind == e,
        },
{
    let ghost all = info_inputs_of(inputs@);
    let ghost total = report_from(K::kind(), all, marks@, 0);
    let mut left: Vec<InfoInput> = inputs;
    let count: usize = left.len();
    let mut i: usize = 0;
    let ghost mut done: Seq<Seq<char>> = Seq::empty();
    assert(writer@ + done =~= writer@);
    assert(left@.skip(0) =~= left@);
    assert(done + total.0 =~= total.0);
    while i < count
        invariant
            i <= count,
            count == all.len(),
            all == info_inputs_of(inputs@),
            left@ == inputs@.skip(i as int),
            total == report_from(K::kind(), all, marks@, 0),
            writer@ == old(writer)@ + done,
            total.0 == done + report_from(K::kind(), all, marks@, i as int).0,
            total.1 == report_from(K::kind(), all, marks@, i as int).1,
        decreases count - i,
    {
        let ghost before = writer@;
        let input: InfoInput = left.remove(0);
        assert(input@ == all[i as int]) by {
            assert(input == inputs@[i as int]);
        }
        assert(left@ =~= inputs@.skip(i + 1));
        let result: Result<(), Error> = write_table_report::<K>(input, marks, writer);
        proof {
            let first = table_report(K::kind(), all[i as int], marks@);
            let rest = report_from(K::kind(), all, marks@, i + 1);
            assert(before + first.0 =~= old(writer)@ + (done + first.0));
            if first.1 is None {
                assert(done + (first.0 + rest.0) =~= (done + first.0) + rest.0);
            }
            done = done + first.0;
        }
        match result {
            Ok(_) => {},
            Err(e) => {
                return Err(e);
            },
        }
        i += 1;
    }
    assert(done + Seq::<Seq<char>>::empty() =~= done);
    Ok(())
}

/// Writes the report on `relative_input_paths` to `writer`, with the marks
/// in their colours: the lines of `report_from` for the marks of
/// [`Marks::painted`], whatever these come to.
pub fn get_info<K: Key>(relative_input_paths: Vec<InfoInput>, writer: &mut Terminal) -> (r: Result<
    (),
    Error,
>)
    ensures
        exists|marks: MarksView|
            {
                &&& final(writer)@ == old(writer)@ + (#[trigger] report_from(
                    K::kind(),
                    info_inputs_of(relative_input_paths@),
                    marks,
                    0,
                )).0
                &&& match report_from(K::kind(), info_inputs_of(relative_input_paths@), marks, 0).1 {
                    None => r is Ok,
                    Some(e) => r is Err && r->Err_0.kind == e,
                }
            },
{
    let marks: Marks = Marks::painted();
    let r = write_info::<K>(relative_input_paths, &marks, writer);
    proof {
        let lines = report_from(K::kind(), info_inputs_of(relative_input_paths@), marks@, 0);
        assert(writer@ == old(writer)@ + lines.0);
    }
    r
}

} // verus!
