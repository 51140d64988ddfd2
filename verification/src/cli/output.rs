//! Table and JSON output of planned updates.

use crate::text;
use crate::types::{BumpType, PlannedUpdate, UpdateView};
use crate::util;
use owo_colors::OwoColorize;
use vstd::prelude::*;

verus! {

// ---------------------------------------------------------------------------
// Bump detection
// ---------------------------------------------------------------------------

/// What stands before the first dot.
pub open spec fn before_dot(s: Seq<char>) -> Seq<char> {
    s.take(text::first_index(s, text::the_char('.')) as int)
}

/// What stands behind the first dot, if there is one.
pub open spec fn behind_dot(s: Seq<char>) -> Option<Seq<char>> {
    let k = text::first_index(s, text::the_char('.')) as int;
    if k < s.len() {
        Some(s.skip(k + 1))
    } else {
        None
    }
}

/// A character that is not a decimal digit.
pub open spec fn not_digit() -> spec_fn(char) -> bool {
    |c: char| !text::digit(c)
}

/// The leading run of decimal digits.
pub open spec fn leading_digits(s: Seq<char>) -> Seq<char> {
    s.take(text::first_index(s, not_digit()) as int)
}

/// A number, or zero where the text is not one.
pub open spec fn number_or_zero(s: Seq<char>) -> u64 {
    match text::parsed_u64(s) {
        Some(n) => n,
        None => 0,
    }
}

/// Major, minor and patch number of a version text, range operators stripped;
/// whatever is missing or not a number counts as zero.
pub open spec fn version_parts(v: Seq<char>) -> (u64, u64, u64) {
    let s = util::bare(v);
    let major = number_or_zero(before_dot(s));
    match behind_dot(s) {
        None => (major, 0, 0),
        Some(t) => {
            let minor = number_or_zero(before_dot(t));
            match behind_dot(t) {
                None => (major, minor, 0),
                Some(u) => (major, minor, number_or_zero(leading_digits(u))),
            }
        },
    }
}

/// The kind of bump between two version texts.
pub open spec fn bump_between(from: Seq<char>, to: Seq<char>) -> BumpType {
    if version_parts(from).0 != version_parts(to).0 {
        BumpType::Major
    } else if version_parts(from).1 != version_parts(to).1 {
        BumpType::Minor
    } else {
        BumpType::Patch
    }
}

/// Splits at the first dot.
fn cut_dot(s: &str) -> (r: (&str, Option<&str>))
    ensures
        r.0@ == before_dot(s@),
        (match r.1 {
            Some(t) => Some(t@),
            None => None,
        }) == behind_dot(s@),
{
    let v: Vec<char> = text::chars_of(s);
    let k: usize = text::find_char(&v, 0, '.');
    assert(s@.skip(0) =~= s@);
    let head: &str = s.substring_char(0, k);
    if k < v.len() {
        (head, Some(s.substring_char(k + 1, v.len())))
    } else {
        (head, None)
    }
}

/// Parses a number, or gives zero.
fn parse_or_zero(s: &str) -> (r: u64)
    ensures
        r == number_or_zero(s@),
{
    match text::parse_u64(s) {
        Some(n) => n,
        None => 0,
    }
}

/// Parses major, minor and patch from a version text, stripping range
/// operators.
pub fn parse_version_parts(v: &str) -> (r: (u64, u64, u64))
    ensures
        r == version_parts(v@),
{
    let cleaned: &str = util::strip_range_prefix(v);
    let (first, rest) = cut_dot(cleaned);
    let major: u64 = parse_or_zero(first);
    match rest {
        None => (major, 0, 0),
        Some(t) => {
            let (second, rest2) = cut_dot(t);
            let minor: u64 = parse_or_zero(second);
            match rest2 {
                None => (major, minor, 0),
                Some(u) => {
                    let c: Vec<char> = text::chars_of(u);
                    let f = |x: char| -> (b: bool)
                        ensures
                            b == !text::digit(x),
                        { !text::is_digit(x) };
                    let k: usize = text::find_first(&c, 0, f, Ghost(not_digit()));
                    assert(u@.skip(0) =~= u@);
                    (major, minor, parse_or_zero(u.substring_char(0, k)))
                },
            }
        },
    }
}

/// Determines the type of version bump by comparing version texts.
pub fn detect_bump_type(from: &str, to: &str) -> (r: BumpType)
    ensures
        r == bump_between(from@, to@),
{
    let a: (u64, u64, u64) = parse_version_parts(from);
    let b: (u64, u64, u64) = parse_version_parts(to);
    if a.0 != b.0 {
        BumpType::Major
    } else if a.1 != b.1 {
        BumpType::Minor
    } else {
        BumpType::Patch
    }
}

// ---------------------------------------------------------------------------
// Colour
// ---------------------------------------------------------------------------

/// `OwoColorize::red` displays the text between the escape codes for red
/// foreground and default foreground.
#[verifier::external_body]
fn paint_red(s: &str) -> (r: String)
    ensures
        r@ == "\x1b[31m"@ + s@ + "\x1b[39m"@,
{
    format!("{}", s.red())
}

/// `OwoColorize::cyan` displays the text between the escape codes for cyan
/// foreground and default foreground.
#[verifier::external_body]
fn paint_cyan(s: &str) -> (r: String)
    ensures
        r@ == "\x1b[36m"@ + s@ + "\x1b[39m"@,
{
    format!("{}", s.cyan())
}

/// `OwoColorize::green` displays the text between the escape codes for green
/// foreground and default foreground.
#[verifier::external_body]
fn paint_green(s: &str) -> (r: String)
    ensures
        r@ == "\x1b[32m"@ + s@ + "\x1b[39m"@,
{
    format!("{}", s.green())
}

/// `OwoColorize::bold` displays the text between the escape codes for bold and
/// for the end of all styles.
#[verifier::external_body]
fn paint_bold(s: &str) -> (r: String)
    ensures
        r@ == "\x1b[1m"@ + s@ + "\x1b[0m"@,
{
    format!("{}", s.bold())
}

/// A version text coloured by its bump: red, cyan or green.
pub open spec fn colored(version: Seq<char>, bump: BumpType, use_color: bool) -> Seq<char> {
    if !use_color {
        version
    } else {
        match bump {
            BumpType::Major => "\x1b[31m"@ + version + "\x1b[39m"@,
            BumpType::Minor => "\x1b[36m"@ + version + "\x1b[39m"@,
            BumpType::Patch => "\x1b[32m"@ + version + "\x1b[39m"@,
        }
    }
}

/// Colours a version text by its bump type.
pub fn colorize_version(version: &str, bump: BumpType, use_color: bool) -> (r: String)
    ensures
        r@ == colored(version@, bump, use_color),
{
    if !use_color {
        return version.to_owned();
    }
    match bump {
        BumpType::Major => paint_red(version),
        BumpType::Minor => paint_cyan(version),
        BumpType::Patch => paint_green(version),
    }
}

// ---------------------------------------------------------------------------
// Table
// ---------------------------------------------------------------------------

/// Two updates show as the same row.
pub open spec fn same_row(a: UpdateView, b: UpdateView) -> bool {
    a.name == b.name && a.from == b.from && a.to == b.to
}

/// Some update of the list shows as the same row as `u`.
pub open spec fn shown(rows: Seq<UpdateView>, u: UpdateView) -> bool {
    exists|i: int| 0 <= i < rows.len() && same_row(#[trigger] rows[i], u)
}

/// The updates without those that repeat an earlier row, in order.
pub open spec fn distinct_rows(updates: Seq<UpdateView>) -> Seq<UpdateView>
    decreases updates.len(),
{
    if updates.len() == 0 {
        seq![]
    } else {
        let rest = distinct_rows(updates.drop_last());
        if shown(rest, updates.last()) {
            rest
        } else {
            rest.push(updates.last())
        }
    }
}

/// Views of a list of references to updates.
pub open spec fn ref_views(v: Seq<&PlannedUpdate>) -> Seq<UpdateView> {
    v.map_values(|u: &PlannedUpdate| u@)
}

/// Collapses updates by name, old and new version, keeping the order.
pub fn dedupe_updates<'a>(updates: &'a [PlannedUpdate]) -> (r: Vec<&'a PlannedUpdate>)
    ensures
        ref_views(r@) == distinct_rows(crate::types::update_views(updates@)),
{
    let ghost all = crate::types::update_views(updates@);
    let mut out: Vec<&'a PlannedUpdate> = Vec::new();
    let mut i: usize = 0;
    assert(ref_views(out@) =~= distinct_rows(all.take(0)));
    while i < updates.len()
        invariant
            i <= updates@.len(),
            all == crate::types::update_views(updates@),
            ref_views(out@) == distinct_rows(all.take(i as int)),
        decreases updates.len() - i,
    {
        let u: &'a PlannedUpdate = &updates[i];
        let ghost rows = ref_views(out@);
        assert(all[i as int] == u@);
        assert(all.take(i + 1).drop_last() =~= all.take(i as int));
        let mut seen: bool = false;
        let mut k: usize = 0;
        while k < out.len()
            invariant
                k <= out@.len(),
                rows == ref_views(out@),
                seen == (exists|j: int| 0 <= j < k && same_row(#[trigger] rows[j], u@)),
            decreases out.len() - k,
        {
            assert(rows[k as int] == out@[k as int]@);
            let o: &'a PlannedUpdate = out[k];
            if o.name == u.name && o.from == u.from && o.to == u.to {
                assert(same_row(rows[k as int], u@));
                seen = true;
            }
            k += 1;
        }
        assert(seen == shown(rows, u@));
        if !seen {
            out.push(u);
            assert(ref_views(out@) =~= rows.push(u@));
        }
        i += 1;
    }
    assert(all.take(i as int) =~= all);
    out
}

/// `n` spaces.
pub open spec fn spaces(n: int) -> Seq<char>
    decreases n,
{
    if n <= 0 {
        seq![]
    } else {
        spaces(n - 1).push(' ')
    }
}

/// The text padded on the right to `width` characters.
pub open spec fn pad_right(s: Seq<char>, width: nat) -> Seq<char> {
    s + spaces(width - s.len())
}

/// The text padded on the left to `width` characters.
pub open spec fn pad_left(s: Seq<char>, width: nat) -> Seq<char> {
    spaces(width - s.len()) + s
}

/// Writes spaces until `width` is reached from `have`.
fn fill(have: usize, width: usize) -> (r: String)
    ensures
        r@ == spaces(width - have),
{
    let mut out: String = String::new();
    let mut n: usize = have;
    assert(spaces(0) =~= seq![]);
    while n < width
        invariant
            have <= n,
            n <= width || n == have,
            out@ == spaces(n - have),
        decreases width - n,
    {
        out.push(' ');
        n += 1;
    }
    out
}

/// Number of characters.
fn width_of(s: &str) -> (r: usize)
    ensures
        r == s@.len(),
{
    text::chars_of(s).len()
}

/// Largest byte length that `get` takes over the rows.
pub open spec fn widest(rows: Seq<UpdateView>, get: spec_fn(UpdateView) -> Seq<char>) -> nat
    decreases rows.len(),
{
    if rows.len() == 0 {
        0
    } else {
        let rest = widest(rows.drop_last(), get);
        let here = text::byte_len(get(rows.last()));
        if here > rest {
            here
        } else {
            rest
        }
    }
}

/// The name of an update.
pub open spec fn get_name() -> spec_fn(UpdateView) -> Seq<char> {
    |u: UpdateView| u.name
}

/// The old version of an update.
pub open spec fn get_from() -> spec_fn(UpdateView) -> Seq<char> {
    |u: UpdateView| u.from
}

/// The new version of an update.
pub open spec fn get_to() -> spec_fn(UpdateView) -> Seq<char> {
    |u: UpdateView| u.to
}

/// One row of the table.
pub open spec fn row(
    u: UpdateView,
    name_w: nat,
    from_w: nat,
    to_w: nat,
    use_color: bool,
) -> Seq<char> {
    " "@ + pad_right(u.name, name_w) + "  "@ + pad_left(u.from, from_w) + "  ->  "@ + pad_right(
        colored(u.to, bump_between(u.from, u.to), use_color),
        to_w,
    ) + "\n"@
}

/// The rows of the table, one after the other.
pub open spec fn rows_text(
    rows: Seq<UpdateView>,
    name_w: nat,
    from_w: nat,
    to_w: nat,
    use_color: bool,
) -> Seq<char>
    decreases rows.len(),
{
    if rows.len() == 0 {
        seq![]
    } else {
        rows_text(rows.drop_last(), name_w, from_w, to_w, use_color) + row(
            rows.last(),
            name_w,
            from_w,
            to_w,
            use_color,
        )
    }
}

/// The table of a list of updates: one row per distinct update, columns as
/// wide as their longest entry.
pub open spec fn table(updates: Seq<UpdateView>, use_color: bool) -> Seq<char> {
    let rows = distinct_rows(updates);
    rows_text(
        rows,
        widest(rows, get_name()),
        widest(rows, get_from()),
        widest(rows, get_to()),
        use_color,
    )
}

/// The larger of two lengths.
fn larger(a: usize, b: usize) -> (r: usize)
    ensures
        r == (if b > a {
            b
        } else {
            a
        }),
{
    if b > a {
        b
    } else {
        a
    }
}

/// Renders one row of the table.
fn render_row(
    u: &PlannedUpdate,
    name_w: usize,
    from_w: usize,
    to_w: usize,
    use_color: bool,
) -> (r: String)
    ensures
        r@ == row(u@, name_w as nat, from_w as nat, to_w as nat, use_color),
{
    let bump: BumpType = detect_bump_type(u.from.as_str(), u.to.as_str());
    let colored_to: String = colorize_version(u.to.as_str(), bump, use_color);
    let name: String = text::concat2(
        u.name.as_str(),
        fill(width_of(u.name.as_str()), name_w).as_str(),
    );
    let from: String = text::concat2(
        fill(width_of(u.from.as_str()), from_w).as_str(),
        u.from.as_str(),
    );
    let to: String = text::concat2(
        colored_to.as_str(),
        fill(width_of(colored_to.as_str()), to_w).as_str(),
    );
    let mut out: String = text::concat4(" ", name.as_str(), "  ", from.as_str());
    out.push_str("  ->  ");
    out.push_str(to.as_str());
    out.push_str("\n");
    out
}

/// Renders planned updates as a table.
///
/// Updates that repeat an earlier row are shown once. Columns are aligned to
/// the longest entry.
pub fn render_table(updates: &[PlannedUpdate], use_color: bool) -> (r: String)
    ensures
        r@ == table(crate::types::update_views(updates@), use_color),
{
    let unique: Vec<&PlannedUpdate> = dedupe_updates(updates);
    let ghost rows = ref_views(unique@);
    let mut name_w: usize = 0;
    let mut from_w: usize = 0;
    let mut to_w: usize = 0;
    let mut i: usize = 0;
    while i < unique.len()
        invariant
            i <= unique@.len(),
            rows == ref_views(unique@),
            name_w == widest(rows.take(i as int), get_name()),
            from_w == widest(rows.take(i as int), get_from()),
            to_w == widest(rows.take(i as int), get_to()),
        decreases unique.len() - i,
    {
        let u: &PlannedUpdate = unique[i];
        assert(rows[i as int] == u@);
        assert(rows.take(i + 1).drop_last() =~= rows.take(i as int));
        name_w = larger(name_w, u.name.as_str().as_bytes().len());
        from_w = larger(from_w, u.from.as_str().as_bytes().len());
        to_w = larger(to_w, u.to.as_str().as_bytes().len());
        i += 1;
    }
    assert(rows.take(i as int) =~= rows);
    let mut out: String = String::new();
    let mut k: usize = 0;
    assert(out@ =~= rows_text(rows.take(0), name_w as nat, from_w as nat, to_w as nat, use_color));
    while k < unique.len()
        invariant
            k <= unique@.len(),
            rows == ref_views(unique@),
            out@ == rows_text(
                rows.take(k as int),
                name_w as nat,
                from_w as nat,
                to_w as nat,
                use_color,
            ),
        decreases unique.len() - k,
    {
        let u: &PlannedUpdate = unique[k];
        assert(rows[k as int] == u@);
        assert(rows.take(k + 1).drop_last() =~= rows.take(k as int));
        out.push_str(render_row(u, name_w, from_w, to_w, use_color).as_str());
        k += 1;
    }
    assert(rows.take(k as int) =~= rows);
    out
}

// ---------------------------------------------------------------------------
// Header and footer
// ---------------------------------------------------------------------------

/// The header of one manifest.
pub open spec fn header(path: Seq<char>, upgrading: bool) -> Seq<char> {
    if upgrading {
        "Upgrading "@ + path + "\n"@
    } else {
        "Checking "@ + path + "\n"@
    }
}

/// Renders the header line.
pub fn render_header(path: &str, upgrading: bool) -> (r: String)
    ensures
        r@ == header(path@, upgrading),
{
    if upgrading {
        text::concat3("Upgrading ", path, "\n")
    } else {
        text::concat3("Checking ", path, "\n")
    }
}

/// The footer of one manifest.
pub open spec fn footer(
    path: Seq<char>,
    upgrading: bool,
    has_updates: bool,
    use_color: bool,
) -> Seq<char> {
    if !has_updates {
        let smiley = if use_color {
            "\x1b[1m"@ + ("\x1b[32m"@ + ":)"@ + "\x1b[39m"@) + "\x1b[0m"@
        } else {
            ":)"@
        };
        "All dependencies match the latest package versions "@ + smiley + "\n"@
    } else if upgrading {
        "Run your package manager to install new versions.\n"@
    } else {
        let cmd = if use_color {
            "\x1b[36m"@ + "dcu -u"@ + "\x1b[39m"@
        } else {
            "dcu -u"@
        };
        "\nRun "@ + cmd + " to upgrade "@ + path + "\n"@
    }
}

/// Renders the footer hint.
pub fn render_footer(path: &str, upgrading: bool, has_updates: bool, use_color: bool) -> (r: String)
    ensures
        r@ == footer(path@, upgrading, has_updates, use_color),
{
    if !has_updates {
        let smiley: String = if use_color {
            paint_bold(paint_green(":)").as_str())
        } else {
            ":)".to_owned()
        };
        return text::concat3(
            "All dependencies match the latest package versions ",
            smiley.as_str(),
            "\n",
        );
    }
    if upgrading {
        "Run your package manager to install new versions.\n".to_owned()
    } else {
        let cmd: String = if use_color {
            paint_cyan("dcu -u")
        } else {
            "dcu -u".to_owned()
        };
        let mut out: String = text::concat4("\nRun ", cmd.as_str(), " to upgrade ", path);
        out.push_str("\n");
        out
    }
}

// ---------------------------------------------------------------------------
// JSON
// ---------------------------------------------------------------------------

/// A hexadecimal digit, in lower case.
pub open spec fn hex_char(d: nat) -> char {
    if d < 10 {
        ('0' as u32 + d) as char
    } else {
        ('a' as u32 + (d - 10)) as char
    }
}

/// A character inside a JSON string.
pub open spec fn json_char(c: char) -> Seq<char> {
    if c == '"' || c == '\\' {
        seq!['\\', c]
    } else if c == '\x08' {
        "\\b"@
    } else if c == '\t' {
        "\\t"@
    } else if c == '\n' {
        "\\n"@
    } else if c == '\x0c' {
        "\\f"@
    } else if c == '\r' {
        "\\r"@
    } else if (c as u32) < 32 {
        "\\u00"@ + seq![hex_char(c as nat / 16), hex_char(c as nat % 16)]
    } else {
        seq![c]
    }
}

/// The characters of a JSON string.
pub open spec fn json_chars(s: Seq<char>) -> Seq<char>
    decreases s.len(),
{
    if s.len() == 0 {
        seq![]
    } else {
        json_chars(s.drop_last()) + json_char(s.last())
    }
}

/// A JSON string, with its quotes.
pub open spec fn json_string(s: Seq<char>) -> Seq<char> {
    "\""@ + json_chars(s) + "\""@
}

/// The members of a JSON object, one per line.
pub open spec fn member_lines(entries: Seq<(Seq<char>, Seq<char>)>) -> Seq<char>
    decreases entries.len(),
{
    if entries.len() == 0 {
        seq![]
    } else {
        let before = if entries.len() == 1 {
            "\n  "@
        } else {
            member_lines(entries.drop_last()) + ",\n  "@
        };
        before + json_string(entries.last().0) + ": "@ + json_string(entries.last().1)
    }
}

/// A JSON object with these string members, indented by two spaces.
pub open spec fn pretty_object(entries: Seq<(Seq<char>, Seq<char>)>) -> Seq<char> {
    if entries.len() == 0 {
        "{}"@
    } else {
        "{"@ + member_lines(entries) + "\n}"@
    }
}

/// Views of a list of pairs of strings.
pub open spec fn pair_views(v: Seq<(String, String)>) -> Seq<(Seq<char>, Seq<char>)> {
    v.map_values(|p: (String, String)| (p.0@, p.1@))
}

/// No two entries have the same key.
pub open spec fn keys_distinct(v: Seq<(Seq<char>, Seq<char>)>) -> bool {
    forall|i: int, j: int| 0 <= i < j < v.len() ==> (#[trigger] v[i]).0 != (#[trigger] v[j]).0
}

/// `serde_json::to_string_pretty` on an object whose members are strings: one
/// member per line, indented by two spaces, in the given order, with quotes,
/// backslashes and control characters escaped.
#[verifier::external_body]
fn write_pretty_object(entries: Vec<(String, String)>) -> (r: String)
    requires
        keys_distinct(pair_views(entries@)),
    ensures
        r@ == pretty_object(pair_views(entries@)),
{
    let map: serde_json::Map<String, serde_json::Value> = entries.into_iter().map(
        |(k, v)| (k, serde_json::Value::String(v)),
    ).collect();
    serde_json::to_string_pretty(&serde_json::Value::Object(map)).unwrap_or_default()
}

/// Position of the entry with the given key, or the length if there is none.
pub open spec fn key_index(v: Seq<(Seq<char>, Seq<char>)>, key: Seq<char>) -> int
    decreases v.len(),
{
    if v.len() == 0 {
        0
    } else {
        let k = key_index(v.drop_last(), key);
        if k < v.len() - 1 || v.last().0 == key {
            k
        } else {
            v.len() as int
        }
    }
}

/// The entry list after a key has been written: the value of an existing key
/// is replaced in place, a new key is appended.
pub open spec fn write_entry(
    v: Seq<(Seq<char>, Seq<char>)>,
    key: Seq<char>,
    value: Seq<char>,
) -> Seq<(Seq<char>, Seq<char>)> {
    let k = key_index(v, key);
    if k < v.len() {
        v.update(k, (key, value))
    } else {
        v.push((key, value))
    }
}

/// The JSON members of a list of updates: name to new version, last write wins.
pub open spec fn json_entries(rows: Seq<UpdateView>) -> Seq<(Seq<char>, Seq<char>)>
    decreases rows.len(),
{
    if rows.len() == 0 {
        seq![]
    } else {
        write_entry(json_entries(rows.drop_last()), rows.last().name, rows.last().to)
    }
}

proof fn lemma_key_index(v: Seq<(Seq<char>, Seq<char>)>, key: Seq<char>)
    ensures
        0 <= key_index(v, key) <= v.len(),
        key_index(v, key) < v.len() ==> v[key_index(v, key)].0 == key,
        forall|j: int| 0 <= j < key_index(v, key) ==> (#[trigger] v[j]).0 != key,
    decreases v.len(),
{
    if v.len() > 0 {
        let w = v.drop_last();
        lemma_key_index(w, key);
        assert forall|j: int| 0 <= j < key_index(v, key) implies (#[trigger] v[j]).0 != key by {
            if j < w.len() {
                assert(v[j] == w[j]);
            }
        }
    }
}

/// Every name occurs once among the JSON members.
pub proof fn law_json_keys_distinct(rows: Seq<UpdateView>)
    ensures
        keys_distinct(json_entries(rows)),
    decreases rows.len(),
{
    if rows.len() > 0 {
        law_json_keys_distinct(rows.drop_last());
        lemma_key_index(json_entries(rows.drop_last()), rows.last().name);
    }
}

/// Computes the JSON members of a list of updates.
fn build_entries(rows: &Vec<&PlannedUpdate>) -> (r: Vec<(String, String)>)
    ensures
        pair_views(r@) == json_entries(ref_views(rows@)),
{
    let ghost all = ref_views(rows@);
    let mut out: Vec<(String, String)> = Vec::new();
    let mut i: usize = 0;
    assert(pair_views(out@) =~= json_entries(all.take(0)));
    while i < rows.len()
        invariant
            i <= rows@.len(),
            all == ref_views(rows@),
            pair_views(out@) == json_entries(all.take(i as int)),
        decreases rows.len() - i,
    {
        let u: &PlannedUpdate = rows[i];
        assert(all[i as int] == u@);
        assert(all.take(i + 1).drop_last() =~= all.take(i as int));
        let ghost before = pair_views(out@);
        let mut k: usize = 0;
        while k < out.len() && out[k].0 != u.name
            invariant
                k <= out@.len(),
                before == pair_views(out@),
                forall|j: int| 0 <= j < k ==> (#[trigger] before[j]).0 != u.name@,
            decreases out.len() - k,
        {
            assert(before[k as int] == (out@[k as int].0@, out@[k as int].1@));
            k += 1;
        }
        proof {
            lemma_key_index(before, u.name@);
            if k < out@.len() {
                assert(before[k as int] == (out@[k as int].0@, out@[k as int].1@));
            }
            assert(key_index(before, u.name@) == k) by {
                let q = key_index(before, u.name@);
                if q < k {
                    assert(before[q].0 != u.name@);
                } else if k < q {
                    assert(before[k as int].0 != u.name@);
                }
            }
        }
        if k < out.len() {
            out.set(k, (u.name.clone(), u.to.clone()));
            assert(pair_views(out@) =~= before.update(k as int, (u.name@, u.to@)));
        } else {
            out.push((u.name.clone(), u.to.clone()));
            assert(pair_views(out@) =~= before.push((u.name@, u.to@)));
        }
        i += 1;
    }
    assert(all.take(i as int) =~= all);
    out
}

/// Renders updates as a JSON object from name to new version; of several
/// updates with one name the last wins.
pub fn render_json(updates: &[PlannedUpdate]) -> (r: String)
    ensures
        r@ == pretty_object(json_entries(distinct_rows(crate::types::update_views(updates@)))),
        updates@.len() == 0 ==> r@ == "{}"@,
{
    let unique: Vec<&PlannedUpdate> = dedupe_updates(updates);
    let entries: Vec<(String, String)> = build_entries(&unique);
    proof {
        law_json_keys_distinct(ref_views(unique@));
        if updates@.len() == 0 {
            assert(pair_views(entries@).len() == 0);
        }
    }
    write_pretty_object(entries)
}

// ---------------------------------------------------------------------------
// Laws of output
// ---------------------------------------------------------------------------

/// No two rows of the table show the same update, and every update is shown.
pub proof fn law_rows_distinct_and_complete(updates: Seq<UpdateView>)
    ensures
        forall|i: int, j: int|
            0 <= i < j < distinct_rows(updates).len() ==> !same_row(
                #[trigger] distinct_rows(updates)[i],
                #[trigger] distinct_rows(updates)[j],
            ),
        forall|i: int|
            0 <= i < updates.len() ==> shown(distinct_rows(updates), #[trigger] updates[i]),
    decreases updates.len(),
{
    if updates.len() > 0 {
        let init = updates.drop_last();
        law_rows_distinct_and_complete(init);
        let rest = distinct_rows(init);
        let all = distinct_rows(updates);
        assert forall|i: int, j: int| 0 <= i < j < all.len() implies !same_row(
            #[trigger] all[i],
            #[trigger] all[j],
        ) by {
            if j < rest.len() {
                assert(all[i] == rest[i] && all[j] == rest[j]);
            } else {
                assert(all[i] == rest[i]);
                if same_row(rest[i], updates.last()) {
                    assert(shown(rest, updates.last()));
                }
            }
        }
        assert forall|i: int| 0 <= i < updates.len() implies shown(all, #[trigger] updates[i]) by {
            if i < init.len() {
                assert(updates[i] == init[i]);
                let k = choose|k: int| 0 <= k < rest.len() && same_row(#[trigger] rest[k], init[i]);
                assert(all[k] == rest[k]);
            } else if !shown(rest, updates.last()) {
                assert(same_row(all[all.len() - 1], updates.last()));
            }
        }
    }
}

} // verus!
