//! Command-line parsing and output naming of the mold generator program.
use crate::axis::Axis;
use crate::decimal::{decimal, decimal_len, push_zero_padded, zero_padded};
use vstd::prelude::*;

verus! {

/// A command line that the program cannot run: the complaint, followed by the usage text.
#[derive(Debug)]
pub struct InvalidInput {
    pub message: String,
}

/// The usage text that follows every complaint about the command line.
pub const USAGE: &'static str = "\nusage: mold-generator <input.stl> <negative.stl> <positive.stl> [margin] [split-axis] [sections] [section-axis] [registration]\n\nmargin defaults to 10.0 model units and is applied on every side\nsplit-axis defaults to z and must be x, y, or z\nsections defaults to 1 and must be a positive integer\nsection-axis defaults to x and must be x, y, or z\nregistration defaults to none and may be none or default\nwhen sections > 1, output names are suffixed with -01, -02, etc.";

/// Builds the complaint `message`, followed by the usage text.
pub fn invalid_input(message: &str) -> (error: InvalidInput)
    ensures
        error.message@ == message@ + USAGE@,
{
    let mut text = String::from_str(message);
    text.append(USAGE);
    InvalidInput { message: text }
}

/// The axis that an axis argument names: `x`, `y` or `z`, in either case.
pub open spec fn axis_named(value: Seq<char>) -> Option<Axis> {
    if value.len() != 1 {
        None
    } else if value[0] == 'x' || value[0] == 'X' {
        Some(Axis::X)
    } else if value[0] == 'y' || value[0] == 'Y' {
        Some(Axis::Y)
    } else if value[0] == 'z' || value[0] == 'Z' {
        Some(Axis::Z)
    } else {
        None
    }
}

/// The lower-case form of an ASCII letter; any other character is itself.
pub open spec fn ascii_lower(c: char) -> char {
    if 'A' <= c && c <= 'Z' {
        ((c as u32) + 32) as char
    } else {
        c
    }
}

/// Axis arguments are read without regard to case: a one-character argument names
/// the same axis as its lower-case form, `x`, `y` and `z` name the X, Y and Z axes,
/// and nothing longer or shorter names an axis.
pub proof fn lemma_axis_names_ignore_case(c: char, value: Seq<char>)
    ensures
        axis_named(seq![c]) == axis_named(seq![ascii_lower(c)]),
        axis_named(seq!['x']) == Some(Axis::X),
        axis_named(seq!['y']) == Some(Axis::Y),
        axis_named(seq!['z']) == Some(Axis::Z),
        value.len() != 1 ==> axis_named(value) is None,
{
    assert(seq![c][0] == c);
    assert(seq![ascii_lower(c)][0] == ascii_lower(c));
    if 'A' <= c && c <= 'Z' {
        assert(ascii_lower(c) != 'X' && ascii_lower(c) != 'Y' && ascii_lower(c) != 'Z');
        assert(c == 'X' <==> ascii_lower(c) == 'x');
        assert(c == 'Y' <==> ascii_lower(c) == 'y');
        assert(c == 'Z' <==> ascii_lower(c) == 'z');
    }
}

/// Parses an axis argument; `name` describes the argument in the complaint.
pub fn parse_axis(value: &str, name: &str) -> (result: Result<Axis, InvalidInput>)
    ensures
        axis_named(value@) matches Some(axis) ==> result == Ok::<Axis, InvalidInput>(axis),
        axis_named(value@) is None ==> (result matches Err(e) && e.message@ == name@
            + " must be x, y, or z"@ + USAGE@),
{
    let len = value.unicode_len();
    if len == 1 {
        let c = value.get_char(0);
        proof {
            assert(value@ =~= seq![c]);
        }
        if c == 'x' || c == 'X' {
            return Ok(Axis::X);
        } else if c == 'y' || c == 'Y' {
            return Ok(Axis::Y);
        } else if c == 'z' || c == 'Z' {
            return Ok(Axis::Z);
        }
    }
    let mut message = String::from_str(name);
    message.append(" must be x, y, or z");
    Err(invalid_input(message.as_str()))
}

/// What `Path::file_stem` gives for a path, read as text.
pub uninterp spec fn file_stem_of(path: Seq<char>) -> Option<Seq<char>>;

/// What `Path::extension` gives for a path, read as text.
pub uninterp spec fn extension_of(path: Seq<char>) -> Option<Seq<char>>;

/// What `Path::with_file_name` gives for a path and a file name, read as text.
pub uninterp spec fn with_file_name_of(path: Seq<char>, file_name: Seq<char>) -> Seq<char>;

/// What `Path::file_name` gives for a path, read as text.
pub uninterp spec fn file_name_of(path: Seq<char>) -> Option<Seq<char>>;

/// What `Path::parent` gives for a path, read as text.
pub uninterp spec fn parent_of(path: Seq<char>) -> Option<Seq<char>>;

/// Whether `name` is one plain path component on every platform: not empty, not
/// `.` or `..`, and free of `/`, `\` and `:`.
pub open spec fn plain_name(name: Seq<char>) -> bool {
    &&& name.len() > 0
    &&& name != seq!['.']
    &&& name != seq!['.', '.']
    &&& forall|i: int| 0 <= i < name.len() ==> #[trigger] name[i] != '/' && name[i] != '\\' && name[i]
        != ':'
}

/// Calls `std::path::Path::file_stem`: the file name of `path` without its extension,
/// if the path has a file name. The result is named, not described; as documented,
/// there is a stem exactly when the path has a file name.
#[verifier::external_body]
fn path_file_stem(path: &str) -> (stem: Option<String>)
    ensures
        match stem {
            Some(s) => file_stem_of(path@) == Some(s@),
            None => file_stem_of(path@) is None,
        },
        stem is Some <==> file_name_of(path@) is Some,
{
    std::path::Path::new(path).file_stem().and_then(|value| value.to_str()).map(|value| value.to_string())
}

/// Calls `std::path::Path::extension`: the extension of the file name of `path`, if
/// there is one. The result is named, not described.
#[verifier::external_body]
fn path_extension(path: &str) -> (extension: Option<String>)
    ensures
        match extension {
            Some(s) => extension_of(path@) == Some(s@),
            None => extension_of(path@) is None,
        },
{
    std::path::Path::new(path).extension().and_then(|value| value.to_str()).map(|value| value.to_string())
}

/// Calls `std::path::Path::with_file_name`: `path` with its file name replaced by
/// `file_name`. The result is named; of it, only what the documentation of
/// `PathBuf::set_file_name` gives is stated, and only for a plain `file_name`: the
/// result's file name is `file_name`, and where `path` has a file name the result is
/// its sibling, with the same parent.
#[verifier::external_body]
fn path_with_file_name(path: &str, file_name: &str) -> (result: String)
    ensures
        result@ == with_file_name_of(path@, file_name@),
        plain_name(file_name@) ==> file_name_of(result@) == Some(file_name@),
        plain_name(file_name@) && file_name_of(path@) is Some ==> parent_of(result@) == parent_of(
            path@,
        ),
{
    std::path::Path::new(path).with_file_name(file_name).to_string_lossy().into_owned()
}

/// The number of digits used to number `count` output sections: at least two.
pub open spec fn section_digits(count: nat) -> nat {
    if decimal(count).len() >= 2 {
        decimal(count).len()
    } else {
        2
    }
}

/// The file name of section `index` of `count`: the stem, a hyphen, the one-based
/// section number zero-padded to [`section_digits`], and the extension if there is one.
pub open spec fn section_file_name(
    stem: Seq<char>,
    extension: Option<Seq<char>>,
    index: nat,
    count: nat,
) -> Seq<char> {
    let numbered = stem + seq!['-'] + zero_padded(index + 1, section_digits(count));
    match extension {
        Some(e) => numbered + seq!['.'] + e,
        None => numbered,
    }
}

/// The output path of section `index` of `count` sections written to `base`: `base`
/// itself when there is only one section, and otherwise `base` with its file name
/// replaced by the numbered [`section_file_name`] (stem `mold` when `base` has none).
pub open spec fn section_output(base: Seq<char>, index: nat, count: nat) -> Seq<char> {
    if count == 1 {
        base
    } else {
        let stem = match file_stem_of(base) {
            Some(s) => s,
            None => "mold"@,
        };
        with_file_name_of(base, section_file_name(stem, extension_of(base), index, count))
    }
}

/// The stem that numbered section files of `base` take: its file stem, or `mold`.
pub open spec fn section_stem(base: Seq<char>) -> Seq<char> {
    match file_stem_of(base) {
        Some(s) => s,
        None => "mold"@,
    }
}

/// The output path of section `index` of `count` sections written to `base`.
pub fn section_output_path(base: &str, index: usize, count: usize) -> (path: String)
    requires
        index < usize::MAX,
    ensures
        path@ == section_output(base@, index as nat, count as nat),
        count != 1 && plain_name(
            section_file_name(section_stem(base@), extension_of(base@), index as nat, count as nat),
        ) ==> file_name_of(path@) == Some(
            section_file_name(section_stem(base@), extension_of(base@), index as nat, count as nat),
        ),
        count != 1 && plain_name(
            section_file_name(section_stem(base@), extension_of(base@), index as nat, count as nat),
        ) && file_name_of(base@) is Some ==> parent_of(path@) == parent_of(base@),
{
    if count == 1 {
        return String::from_str(base);
    }
    let stem = match path_file_stem(base) {
        Some(s) => s,
        None => String::from_str("mold"),
    };
    let extension = path_extension(base);
    let count_digits = decimal_len(count as u64);
    let digits = if count_digits > 2 { count_digits } else { 2 };
    let mut file_name = stem;
    crate::text::push_char(&mut file_name, '-');
    push_zero_padded(&mut file_name, (index + 1) as u64, digits);
    match &extension {
        Some(e) => {
            crate::text::push_char(&mut file_name, '.');
            file_name.append(e.as_str());
        },
        None => {},
    }
    proof {
        let stem_view = match file_stem_of(base@) {
            Some(s) => s,
            None => "mold"@,
        };
        assert(file_name@ =~= section_file_name(
            stem_view,
            extension_of(base@),
            index as nat,
            count as nat,
        ));
    }
    path_with_file_name(base, file_name.as_str())
}

/// Distinct sections of one output get distinct file names.
pub proof fn lemma_section_file_names_distinct(
    stem: Seq<char>,
    extension: Option<Seq<char>>,
    i: nat,
    j: nat,
    count: nat,
)
    requires
        i != j,
    ensures
        section_file_name(stem, extension, i, count) != section_file_name(stem, extension, j, count),
{
    let w = section_digits(count);
    crate::decimal::lemma_zero_padded_value(i + 1, w);
    crate::decimal::lemma_zero_padded_value(j + 1, w);
    let a = section_file_name(stem, extension, i, count);
    let b = section_file_name(stem, extension, j, count);
    let pa = zero_padded(i + 1, w);
    let pb = zero_padded(j + 1, w);
    if a == b {
        let prefix_len = stem.len() + 1;
        let ext_len = match extension {
            Some(e) => e.len() + 1,
            None => 0,
        };
        assert(a.len() == prefix_len + pa.len() + ext_len);
        assert(b.len() == prefix_len + pb.len() + ext_len);
        assert(pa.len() == pb.len());
        assert(a.subrange(prefix_len as int, (prefix_len + pa.len()) as int) =~= pa);
        assert(b.subrange(prefix_len as int, (prefix_len + pb.len()) as int) =~= pb);
        crate::decimal::lemma_zero_padded_injective(i + 1, j + 1, w);
    }
}

/// Sections written to one base path get distinct paths: two section paths whose
/// file names are the numbered names of different sections differ.
pub proof fn lemma_section_paths_distinct(
    base: Seq<char>,
    p1: Seq<char>,
    p2: Seq<char>,
    i: nat,
    j: nat,
    count: nat,
)
    requires
        i != j,
        file_name_of(p1) == Some(section_file_name(section_stem(base), extension_of(base), i, count)),
        file_name_of(p2) == Some(section_file_name(section_stem(base), extension_of(base), j, count)),
    ensures
        p1 != p2,
{
    lemma_section_file_names_distinct(section_stem(base), extension_of(base), i, j, count);
}

/// Whether `export` reported success for section `i` written to its [`section_output`] path.
pub open spec fn section_exported<E, F: Fn(usize, String) -> Result<(), E>>(
    export: F,
    base: Seq<char>,
    count: nat,
    i: int,
) -> bool {
    exists|p: String|
        p@ == section_output(base, i as nat, count) && #[trigger] export.ensures(
            (i as usize, p),
            Ok::<(), E>(()),
        )
}

/// Whether `export` reported success for every section before section `i`.
pub open spec fn exported_before<E, F: Fn(usize, String) -> Result<(), E>>(
    export: F,
    base: Seq<char>,
    count: nat,
    i: int,
) -> bool {
    forall|j: int| 0 <= j < i ==> #[trigger] section_exported(export, base, count, j)
}

/// Writes every section through `export`, section `i` to its [`section_output`] path,
/// in order, stopping at the first failure.
pub fn export_sections<E, F: Fn(usize, String) -> Result<(), E>>(
    base: &str,
    count: usize,
    export: F,
) -> (result: Result<(), E>)
    requires
        count < usize::MAX,
        forall|i: usize, p: String| i < count ==> #[trigger] export.requires((i, p)),
    ensures
        result is Ok ==> forall|i: int|
            0 <= i < count ==> #[trigger] section_exported(export, base@, count as nat, i),
        result matches Err(e) ==> exists|i: usize, p: String|
            i < count && p@ == section_output(base@, i as nat, count as nat)
                && #[trigger] export.ensures((i, p), Err::<(), E>(e)) && exported_before(
                export,
                base@,
                count as nat,
                i as int,
            ),
{
    let mut index: usize = 0;
    while index < count
        invariant
            index <= count,
            count < usize::MAX,
            forall|i: usize, p: String| i < count ==> #[trigger] export.requires((i, p)),
            forall|i: int|
                0 <= i < index ==> #[trigger] section_exported(export, base@, count as nat, i),
        decreases count - index,
    {
        let path = section_output_path(base, index, count);
        let ghost sent = path;
        let outcome = export(index, path);
        proof {
            assert(export.ensures((index, sent), outcome));
        }
        match outcome {
            Ok(unit) => {
                proof {
                    assert(outcome == Ok::<(), E>(unit));
                    assert(unit == ());
                    assert(outcome == Ok::<(), E>(()));
                    assert(sent@ == section_output(base@, index as nat, count as nat));
                    assert(export.ensures(((index as int) as usize, sent), Ok::<(), E>(())));
                    assert(section_exported(export, base@, count as nat, index as int));
                }
            },
            Err(e) => {
                proof {
                    assert(exported_before(export, base@, count as nat, index as int));
                    assert(sent@ == section_output(base@, index as nat, count as nat));
                }
                return Err(e);
            },
        }
        index = index + 1;
    }
    Ok(())
}

/// The section count a command-line argument denotes: an optional `+` followed by
/// decimal digits, whose value is positive and fits in `usize`.
pub open spec fn count_named(value: Seq<char>) -> Option<nat> {
    let digits = if value.len() >= 1 && value[0] == '+' { value.drop_first() } else { value };
    if digits.len() >= 1 && crate::artifacts::all_digits(digits) && 0
        < crate::decimal::digits_value(digits) <= usize::MAX {
        Some(crate::decimal::digits_value(digits))
    } else {
        None
    }
}

proof fn lemma_digits_value_push(s: Seq<char>, c: char)
    requires
        crate::decimal::is_digit(c),
    ensures
        crate::decimal::digits_value(s.push(c)) == crate::decimal::digits_value(s) * 10
            + crate::decimal::digit_value(c)->0,
{
    assert(s.push(c).drop_last() =~= s);
}

proof fn lemma_digits_value_monotone(s: Seq<char>, k: int)
    requires
        0 <= k <= s.len(),
    ensures
        crate::decimal::digits_value(s.take(k)) <= crate::decimal::digits_value(s),
    decreases s.len() - k,
{
    if k < s.len() {
        lemma_digits_value_monotone(s, k + 1);
        assert(s.take(k + 1).drop_last() =~= s.take(k));
        let v = crate::decimal::digits_value(s.take(k));
        let w = crate::decimal::digits_value(s.take(k + 1));
        assert(w >= v * 10);
        assert(v * 10 >= v) by (nonlinear_arith)
            requires
                v >= 0,
        ;
    } else {
        assert(s.take(k) =~= s);
    }
}

/// Parses the section-count argument: a positive integer.
pub fn parse_section_count(value: &str) -> (result: Result<usize, InvalidInput>)
    ensures
        count_named(value@) matches Some(c) ==> result == Ok::<usize, InvalidInput>(c as usize),
        count_named(value@) is None ==> (result matches Err(e) && e.message@
            == "section count must be a positive integer"@ + USAGE@),
{
    let len = value.unicode_len();
    let mut start: usize = 0;
    if len >= 1 && value.get_char(0) == '+' {
        start = 1;
    }
    let ghost digits = if value@.len() >= 1 && value@[0] == '+' { value@.drop_first() } else { value@ };
    proof {
        assert(digits =~= value@.subrange(start as int, len as int));
        assert(count_named(value@) == if digits.len() >= 1 && crate::artifacts::all_digits(digits)
            && 0 < crate::decimal::digits_value(digits) <= usize::MAX {
            Some(crate::decimal::digits_value(digits))
        } else {
            None
        });
    }
    if start >= len {
        return Err(invalid_input("section count must be a positive integer"));
    }
    let mut total: usize = 0;
    let mut i: usize = start;
    while i < len
        invariant
            len == value@.len(),
            start <= i <= len,
            digits =~= value@.subrange(start as int, len as int),
            crate::artifacts::all_digits(digits.take(i - start)),
            total as nat == crate::decimal::digits_value(digits.take(i - start)),
            count_named(value@) == if digits.len() >= 1 && crate::artifacts::all_digits(digits)
                && 0 < crate::decimal::digits_value(digits) <= usize::MAX {
                Some(crate::decimal::digits_value(digits))
            } else {
                None
            },
        decreases len - i,
    {
        let c = value.get_char(i);
        let d: usize = match c {
            '0' => 0,
            '1' => 1,
            '2' => 2,
            '3' => 3,
            '4' => 4,
            '5' => 5,
            '6' => 6,
            '7' => 7,
            '8' => 8,
            '9' => 9,
            _ => {
                proof {
                    assert(digits[i - start] == c);
                    assert(!crate::decimal::is_digit(c));
                    assert(!crate::artifacts::all_digits(digits));
                    assert(count_named(value@) is None);
                }
                return Err(invalid_input("section count must be a positive integer"));
            },
        };
        proof {
            assert(crate::decimal::digit_value(c) == Some(d as nat));
            assert(digits.take(i - start + 1) =~= digits.take(i - start).push(c));
            lemma_digits_value_push(digits.take(i - start), c);
        }
        if total > (usize::MAX - d) / 10 {
            proof {
                assert(total * 10 + d > usize::MAX) by (nonlinear_arith)
                    requires
                        total > (usize::MAX - d) / 10,
                        d <= 9,
                ;
                lemma_digits_value_monotone(digits, i - start + 1);
                assert(crate::decimal::digits_value(digits) > usize::MAX);
                assert(count_named(value@) is None);
            }
            return Err(invalid_input("section count must be a positive integer"));
        }
        proof {
            assert(total * 10 + d <= usize::MAX) by (nonlinear_arith)
                requires
                    total <= (usize::MAX - d) / 10,
                    d <= 9,
            ;
        }
        total = total * 10 + d;
        i = i + 1;
    }
    proof {
        assert(digits.take(len - start) =~= digits);
    }
    if total == 0 {
        return Err(invalid_input("section count must be a positive integer"));
    }
    Ok(total)
}

/// Parses the registration argument: `none` asks for no registration keys and
/// `default` for the default keys.
pub fn parse_registration(value: &str) -> (result: Result<bool, InvalidInput>)
    ensures
        value@ == "none"@ ==> result == Ok::<bool, InvalidInput>(false),
        value@ == "default"@ ==> result == Ok::<bool, InvalidInput>(true),
        value@ != "none"@ && value@ != "default"@ ==> (result matches Err(e) && e.message@
            == "registration must be none or default"@ + USAGE@),
{
    proof {
        reveal_strlit("none");
        reveal_strlit("default");
        assert("none"@.len() == 4);
        assert("default"@.len() == 7);
        assert("none"@ != "default"@);
    }
    if crate::text::text_equals(value, "none") {
        Ok(false)
    } else if crate::text::text_equals(value, "default") {
        Ok(true)
    } else {
        Err(invalid_input("registration must be none or default"))
    }
}

/// The command line of the mold generator, parsed: the margin is kept as text and
/// read as a number by the caller.
#[derive(Debug)]
pub struct Arguments {
    pub input: String,
    pub negative_output: String,
    pub positive_output: String,
    pub margin: Option<String>,
    pub split_axis: Axis,
    pub section_count: usize,
    pub section_axis: Axis,
    pub registration: bool,
}

/// The complaint, if any, about the command line `args` (program name excluded), in
/// the order the arguments are read; `margin_is_number` says whether the fourth
/// argument, if present, reads as a number.
pub open spec fn arguments_complaint(args: Seq<Seq<char>>, margin_is_number: bool) -> Option<Seq<char>> {
    let axis_arg = |i: int, default: Seq<char>| if args.len() > i { args[i] } else { default };
    if args.len() < 1 {
        Some("missing input STL"@)
    } else if args.len() < 2 {
        Some("missing negative-side output STL"@)
    } else if args.len() < 3 {
        Some("missing positive-side output STL"@)
    } else if args.len() > 3 && !margin_is_number {
        Some("margin must be a number"@)
    } else if axis_named(axis_arg(4, "z"@)) is None {
        Some("split axis"@ + " must be x, y, or z"@)
    } else if args.len() > 5 && count_named(args[5]) is None {
        Some("section count must be a positive integer"@)
    } else if axis_named(axis_arg(6, "x"@)) is None {
        Some("section axis"@ + " must be x, y, or z"@)
    } else if args.len() > 7 && args[7] != "none"@ && args[7] != "default"@ {
        Some("registration must be none or default"@)
    } else if args.len() > 8 {
        Some("too many arguments"@)
    } else {
        None
    }
}

/// The views of a list of strings.
pub open spec fn views(args: Seq<String>) -> Seq<Seq<char>> {
    args.map_values(|a: String| a@)
}

/// Reads the command line `args` (program name excluded):
/// `<input.stl> <negative.stl> <positive.stl> [margin] [split-axis] [sections]
/// [section-axis] [registration]`, with split axis `z`, one section, section axis `x`
/// and no registration by default.
pub fn parse_arguments(args: &Vec<String>, margin_is_number: bool) -> (result: Result<
    Arguments,
    InvalidInput,
>)
    ensures
        arguments_complaint(views(args@), margin_is_number) matches Some(m) ==> (result matches Err(
            e,
        ) && e.message@ == m + USAGE@),
        arguments_complaint(views(args@), margin_is_number) is None ==> (result matches Ok(a) && {
            &&& a.input@ == args@[0]@
            &&& a.negative_output@ == args@[1]@
            &&& a.positive_output@ == args@[2]@
            &&& (args@.len() > 3 ==> (a.margin matches Some(m) && m@ == args@[3]@))
            &&& (args@.len() <= 3 ==> a.margin is None)
            &&& Some(a.split_axis) == axis_named(
                if args@.len() > 4 { args@[4]@ } else { "z"@ },
            )
            &&& a.section_count == (if args@.len() > 5 { count_named(args@[5]@)->0 } else { 1 })
            &&& Some(a.section_axis) == axis_named(
                if args@.len() > 6 { args@[6]@ } else { "x"@ },
            )
            &&& a.registration == (args@.len() > 7 && args@[7]@ == "default"@)
        }),
{
    let ghost v = views(args@);
    proof {
        reveal_strlit("z");
        reveal_strlit("x");
        assert("z"@ =~= seq!['z']);
        assert(axis_named("z"@) == Some(Axis::Z));
        assert("x"@ =~= seq!['x']);
        assert(axis_named("x"@) == Some(Axis::X));
        assert(forall|i: int| 0 <= i < args@.len() ==> #[trigger] v[i] == args@[i]@);
    }
    if args.len() < 1 {
        return Err(invalid_input("missing input STL"));
    }
    if args.len() < 2 {
        return Err(invalid_input("missing negative-side output STL"));
    }
    if args.len() < 3 {
        return Err(invalid_input("missing positive-side output STL"));
    }
    let margin = if args.len() > 3 {
        if !margin_is_number {
            return Err(invalid_input("margin must be a number"));
        }
        Some(args[3].clone())
    } else {
        None
    };
    let split_axis = if args.len() > 4 {
        parse_axis(args[4].as_str(), "split axis")?
    } else {
        parse_axis("z", "split axis")?
    };
    let section_count = if args.len() > 5 {
        parse_section_count(args[5].as_str())?
    } else {
        1
    };
    let section_axis = if args.len() > 6 {
        parse_axis(args[6].as_str(), "section axis")?
    } else {
        parse_axis("x", "section axis")?
    };
    let registration = if args.len() > 7 {
        parse_registration(args[7].as_str())?
    } else {
        false
    };
    if args.len() > 8 {
        return Err(invalid_input("too many arguments"));
    }
    Ok(
        Arguments {
            input: args[0].clone(),
            negative_output: args[1].clone(),
            positive_output: args[2].clone(),
            margin,
            split_axis,
            section_count,
            section_axis,
            registration,
        },
    )
}

} // verus!
