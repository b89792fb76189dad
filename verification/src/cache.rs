//! Freshness of the on-disk cache file.
//!
//! The cache file is rebuilt when it is stale: absent, unreadable, dated in
//! the future, or older than a fixed freshness window of 24 hours. The
//! caller reads the clock and the file's modification time and hands the
//! resulting age over; every ambiguity (no file, unreadable metadata, a
//! negative duration from clock skew) is handed over as `None`, which this
//! module treats as stale, so any doubt resolves to a rescan.

use vstd::prelude::*;
use vstd::string::StringExecFns;

use crate::entry::{entries_view, EntryModel, ExecutableEntry};
use crate::scanner::{scan, scan_nodes_spec, FsNode};
use crate::text::{
    contains, contains_spec, find, find_spec, is_space_char, lemma_find_from_spec,
    lemma_find_spec_contains, lemma_find_spec_first, lemma_trim_id, match_at, strip_prefix,
    strip_prefix_spec, trim, trim_spec,
};

verus! {

/// Length of the freshness window in seconds: a cache file older than this
/// is stale and must be rebuilt.
pub const FRESHNESS_WINDOW_SECS: u64 = 24 * 60 * 60;

/// The age of the cache file: the time elapsed since its last modification,
/// split into whole seconds and the remaining fraction in nanoseconds.
pub struct FileAge {
    pub secs: u64,
    pub nanos: u32,
}

/// A cache file is stale when its age is unknown (`None`) or exceeds the
/// freshness window by any amount, down to a nanosecond.
pub open spec fn is_stale_spec(age: Option<FileAge>) -> bool {
    match age {
        Option::None => true,
        Option::Some(a) => a.secs > FRESHNESS_WINDOW_SECS || (a.secs == FRESHNESS_WINDOW_SECS
            && a.nanos > 0),
    }
}

/// Decides whether the cache file must be refreshed. `None` means the age
/// could not be determined: the file does not exist, its metadata could not
/// be read, or its modification time lies in the future.
pub fn is_stale(age: Option<FileAge>) -> (stale: bool)
    ensures
        stale == is_stale_spec(age),
{
    match age {
        Option::None => true,
        Option::Some(a) => a.secs > FRESHNESS_WINDOW_SECS || (a.secs == FRESHNESS_WINDOW_SECS
            && a.nanos > 0),
    }
}

/// The literal that opens every cache line.
pub open spec fn name_prefix() -> Seq<char> {
    "Name: "@
}

/// The literal that separates the name from the path in a cache line.
pub open spec fn path_delim() -> Seq<char> {
    ", Pfad: "@
}

/// One cache line: `Name: {name}, Pfad: {path}`. The fields go in
/// unescaped, so a field that itself holds the delimiter mis-parses on
/// read; see [`round_trippable`].
pub open spec fn format_entry_spec(name: Seq<char>, path: Seq<char>) -> Seq<char> {
    name_prefix() + name + path_delim() + path
}

/// Renders the cache line for one entry.
pub fn format_entry(e: &ExecutableEntry) -> (line: String)
    ensures
        line@ == format_entry_spec(e.name@, e.path@),
{
    let mut line: String = "Name: ".to_owned();
    line.append(e.name.as_str());
    line.append(", Pfad: ");
    line.append(e.path.as_str());
    line
}

/// The cache lines for a sequence of entries, one line per entry, in order.
pub open spec fn render_spec(entries: Seq<EntryModel>) -> Seq<Seq<char>> {
    entries.map_values(|e: EntryModel| format_entry_spec(e.name, e.path))
}

/// The views of a sequence of lines.
pub open spec fn line_views(lines: Seq<String>) -> Seq<Seq<char>> {
    lines.map_values(|l: String| l@)
}

/// Renders the full cache: one line per entry, in scan order. The caller
/// writes the lines out, each followed by a line break.
pub fn render_lines(entries: &Vec<ExecutableEntry>) -> (lines: Vec<String>)
    ensures
        line_views(lines@) == render_spec(entries_view(entries@)),
{
    let mut lines: Vec<String> = Vec::new();
    let mut i: usize = 0;
    while i < entries.len()
        invariant
            i <= entries@.len(),
            lines@.len() == i,
            forall|k: int|
                0 <= k < i ==> lines@[k]@ == format_entry_spec(
                    entries@[k]@.name,
                    entries@[k]@.path,
                ),
        decreases entries@.len() - i,
    {
        let line = format_entry(&entries[i]);
        lines.push(line);
        i += 1;
    }
    proof {
        assert(line_views(lines@) =~= render_spec(entries_view(entries@)));
    }
    lines
}

/// The compute half of a refresh: scans the given directory trees and
/// renders the cache lines for what was found, in scan order. The caller
/// writes the lines to the cache file and surfaces any write failure.
pub fn build_cache_lines(roots: &Vec<FsNode>) -> (lines: Vec<String>)
    ensures
        line_views(lines@) == render_spec(scan_nodes_spec(roots@)),
{
    let results = scan(roots);
    render_lines(&results)
}

/// The parse of one cache line: the part before the first path delimiter,
/// trimmed and bare of the `Name: ` prefix, is the name; the part between
/// the first and second delimiter (or the rest, when no second one comes),
/// trimmed, is the path. A line without the delimiter keeps its trimmed
/// text as the name and yields an empty path rather than being dropped.
pub open spec fn parse_line_spec(l: Seq<char>) -> EntryModel {
    match find_spec(l, path_delim()) {
        Option::None => EntryModel {
            name: strip_prefix_spec(trim_spec(l), name_prefix()),
            path: Seq::empty(),
        },
        Option::Some(i) => {
            let rest = l.subrange(i + path_delim().len() as int, l.len() as int);
            let path_raw = match find_spec(rest, path_delim()) {
                Option::None => rest,
                Option::Some(j) => rest.subrange(0, j),
            };
            EntryModel {
                name: strip_prefix_spec(trim_spec(l.subrange(0, i)), name_prefix()),
                path: trim_spec(path_raw),
            }
        },
    }
}

/// Parses one cache line into an entry.
pub fn parse_line(line: &str) -> (e: ExecutableEntry)
    ensures
        e@ == parse_line_spec(line@),
{
    let n = line.unicode_len();
    proof {
        lemma_find_from_spec(line@, ", Pfad: "@, 0);
    }
    match find(line, ", Pfad: ") {
        Option::None => {
            let trimmed = trim(line);
            let name = strip_prefix(trimmed.as_str(), "Name: ");
            ExecutableEntry { name, path: String::new() }
        },
        Option::Some(i) => {
            let dlen = ", Pfad: ".unicode_len();
            let rest = line.substring_char(i + dlen, n);
            proof {
                lemma_find_from_spec(rest@, ", Pfad: "@, 0);
            }
            let path_raw = match find(rest, ", Pfad: ") {
                Option::None => rest,
                Option::Some(j) => rest.substring_char(0, j),
            };
            let name_trimmed = trim(line.substring_char(0, i));
            let name = strip_prefix(name_trimmed.as_str(), "Name: ");
            let path = trim(path_raw);
            ExecutableEntry { name, path }
        },
    }
}

/// The entries for the lines that hold `term` as a literal substring, in
/// line order, each parsed as [`parse_line_spec`].
pub open spec fn search_spec(lines: Seq<Seq<char>>, term: Seq<char>) -> Seq<EntryModel> {
    lines.filter(|l: Seq<char>| contains_spec(l, term)).map_values(
        |l: Seq<char>| parse_line_spec(l),
    )
}

/// Appending one line extends the search result by its parse exactly when
/// the line holds the term.
proof fn lemma_search_spec_push(lines: Seq<Seq<char>>, l: Seq<char>, term: Seq<char>)
    ensures
        search_spec(lines.push(l), term) == search_spec(lines, term) + (if contains_spec(
            l,
            term,
        ) {
            seq![parse_line_spec(l)]
        } else {
            Seq::<EntryModel>::empty()
        }),
{
    let p = |x: Seq<char>| contains_spec(x, term);
    let f = |x: Seq<char>| parse_line_spec(x);
    reveal(Seq::filter);
    assert(lines.push(l).drop_last() =~= lines);
    assert(lines.push(l).last() == l);
    if p(l) {
        assert(lines.push(l).filter(p) == lines.filter(p).push(l));
        assert(lines.filter(p).push(l).map_values(f) =~= lines.filter(p).map_values(f) + seq![
            parse_line_spec(l),
        ]);
    } else {
        assert(lines.push(l).filter(p) == lines.filter(p));
        assert(search_spec(lines, term) + Seq::<EntryModel>::empty() =~= search_spec(
            lines,
            term,
        ));
    }
}

/// Searches the cache lines: keeps, in order, every line that holds `term`
/// as a literal, case-sensitive substring, parsed into an entry. The empty
/// term keeps every line.
pub fn search_lines(lines: &Vec<String>, term: &str) -> (results: Vec<ExecutableEntry>)
    ensures
        entries_view(results@) == search_spec(line_views(lines@), term@),
{
    let ghost all = line_views(lines@);
    let mut results: Vec<ExecutableEntry> = Vec::new();
    proof {
        reveal(Seq::filter);
        assert(all.subrange(0, 0) =~= Seq::<Seq<char>>::empty());
        assert(entries_view(results@) =~= search_spec(all.subrange(0, 0), term@));
    }
    let mut i: usize = 0;
    while i < lines.len()
        invariant
            i <= lines@.len(),
            all == line_views(lines@),
            entries_view(results@) == search_spec(all.subrange(0, i as int), term@),
        decreases lines@.len() - i,
    {
        let line = &lines[i];
        proof {
            assert(all.subrange(0, i + 1) =~= all.subrange(0, i as int).push(line@));
            lemma_search_spec_push(all.subrange(0, i as int), line@, term@);
        }
        if contains(line.as_str(), term) {
            let e = parse_line(line.as_str());
            let ghost prev = results@;
            results.push(e);
            proof {
                assert(entries_view(results@) =~= entries_view(prev) + seq![e@]);
            }
        }
        i += 1;
    }
    proof {
        assert(all.subrange(0, all.len() as int) =~= all);
    }
    results
}

/// An entry the plain line format stores faithfully: neither field holds
/// the path delimiter, the name is non-empty, and neither field carries
/// white space at its ends.
pub open spec fn round_trippable(e: EntryModel) -> bool {
    &&& !contains_spec(e.name, path_delim())
    &&& !contains_spec(e.path, path_delim())
    &&& e.name.len() > 0
    &&& !is_space_char(e.name[0])
    &&& !is_space_char(e.name[e.name.len() - 1])
    &&& (e.path.len() == 0 || (!is_space_char(e.path[0]) && !is_space_char(
        e.path[e.path.len() - 1],
    )))
}

/// In a rendered line, the first occurrence of the path delimiter is the
/// one the renderer wrote, provided the name holds none.
proof fn lemma_rendered_delim_position(name: Seq<char>, path: Seq<char>)
    requires
        !contains_spec(name, path_delim()),
    ensures
        find_spec(format_entry_spec(name, path), path_delim()) == Option::Some(
            name_prefix().len() + name.len() as int,
        ),
{
    reveal_strlit("Name: ");
    reveal_strlit(", Pfad: ");
    let np = name_prefix();
    let d = path_delim();
    let l = format_entry_spec(name, path);
    let pos = np.len() + name.len() as int;
    assert(np.len() == 6);
    assert(d.len() == 8);
    assert(l.subrange(pos, pos + 8) =~= d);
    assert(match_at(l, d, pos));
    assert forall|j: int| 0 <= j < pos implies !match_at(l, d, j) by {
        if match_at(l, d, j) {
            assert(l.subrange(j, j + 8)[0] == l[j]);
            assert(l[j] == d[0]);
            if j < 6 {
                assert(l[j] == np[j]);
            } else if j + 8 <= pos {
                assert(name.subrange(j - 6, j + 2) =~= l.subrange(j, j + 8));
                assert(match_at(name, d, j - 6));
            } else {
                let k = pos - j;
                assert(l.subrange(j, j + 8)[k] == l[pos]);
                assert(d[k] == l[pos]);
                assert(l[pos] == d[0]);
            }
        }
    };
    lemma_find_spec_first(l, d, pos);
}

/// Parsing the rendered line of a faithful entry gives the entry back,
/// name and path intact.
pub proof fn lemma_parse_render(e: EntryModel)
    requires
        round_trippable(e),
    ensures
        parse_line_spec(format_entry_spec(e.name, e.path)) == e,
{
    reveal_strlit("Name: ");
    reveal_strlit(", Pfad: ");
    let np = name_prefix();
    let d = path_delim();
    let l = format_entry_spec(e.name, e.path);
    lemma_rendered_delim_position(e.name, e.path);
    let pos = np.len() + e.name.len() as int;
    let name_raw = l.subrange(0, pos);
    assert(name_raw =~= np + e.name);
    let rest = l.subrange(pos + 8, l.len() as int);
    assert(rest =~= e.path);
    lemma_find_spec_contains(rest, d);
    assert(find_spec(rest, d) is None);
    assert(name_raw[0] == 'N');
    assert(name_raw[name_raw.len() - 1] == e.name[e.name.len() - 1]);
    lemma_trim_id(name_raw);
    assert(name_raw.subrange(0, 6) =~= np);
    assert(strip_prefix_spec(name_raw, np) =~= e.name);
    lemma_trim_id(e.path);
    assert(parse_line_spec(l) =~= e);
}

/// Filtering with a predicate that holds of every element keeps them all.
proof fn lemma_filter_all<A>(s: Seq<A>, p: spec_fn(A) -> bool)
    requires
        forall|i: int| 0 <= i < s.len() ==> p(#[trigger] s[i]),
    ensures
        s.filter(p) == s,
    decreases s.len(),
{
    reveal(Seq::filter);
    if s.len() == 0 {
        assert(s.filter(p) =~= s);
    } else {
        lemma_filter_all(s.drop_last(), p);
        assert(s.drop_last().push(s.last()) =~= s);
    }
}

/// Round trip: rendering faithful entries and then searching with the
/// empty term, which keeps every line, yields the same entries back.
pub proof fn lemma_round_trip(entries: Seq<EntryModel>)
    requires
        forall|k: int| 0 <= k < entries.len() ==> round_trippable(#[trigger] entries[k]),
    ensures
        search_spec(render_spec(entries), Seq::<char>::empty()) == entries,
{
    let lines = render_spec(entries);
    let term = Seq::<char>::empty();
    let p = |l: Seq<char>| contains_spec(l, term);
    assert forall|i: int| 0 <= i < lines.len() implies p(#[trigger] lines[i]) by {
        assert(lines[i].subrange(0, 0) =~= term);
        assert(match_at(lines[i], term, 0));
    };
    lemma_filter_all(lines, p);
    assert forall|k: int| 0 <= k < lines.len() implies lines.map_values(
        |l: Seq<char>| parse_line_spec(l),
    )[k] == entries[k] by {
        lemma_parse_render(entries[k]);
    };
    assert(search_spec(lines, term) =~= entries);
}

/// The search returns only parses of lines that hold the term; a term that
/// no line holds yields the empty result, not an error.
pub proof fn lemma_search_only_matching(lines: Seq<Seq<char>>, term: Seq<char>)
    ensures
        forall|k: int|
            0 <= k < search_spec(lines, term).len() ==> exists|j: int|
                0 <= j < lines.len() && #[trigger] contains_spec(lines[j], term) && #[trigger]
                search_spec(lines, term)[k] == parse_line_spec(lines[j]),
        (forall|j: int| 0 <= j < lines.len() ==> !contains_spec(#[trigger] lines[j], term))
            ==> search_spec(lines, term) == Seq::<EntryModel>::empty(),
    decreases lines.len(),
{
    if lines.len() == 0 {
        reveal(Seq::filter);
        assert(search_spec(lines, term) =~= Seq::<EntryModel>::empty());
    } else {
        let init = lines.drop_last();
        let last = lines.last();
        lemma_search_only_matching(init, term);
        assert(init.push(last) =~= lines);
        lemma_search_spec_push(init, last, term);
        assert forall|k: int|
            0 <= k < search_spec(lines, term).len() implies exists|j: int|
            0 <= j < lines.len() && #[trigger] contains_spec(lines[j], term) && #[trigger]
            search_spec(lines, term)[k] == parse_line_spec(lines[j]) by {
            if k < search_spec(init, term).len() {
                assert(search_spec(lines, term)[k] == search_spec(init, term)[k]);
                let j0 = choose|j: int|
                    0 <= j < init.len() && contains_spec(init[j], term) && search_spec(
                        init,
                        term,
                    )[k] == parse_line_spec(init[j]);
                assert(init[j0] == lines[j0]);
                assert(0 <= j0 < lines.len() && contains_spec(lines[j0], term) && search_spec(
                    lines,
                    term,
                )[k] == parse_line_spec(lines[j0]));
            } else {
                assert(contains_spec(last, term));
                let j1 = lines.len() - 1;
                assert(lines[j1] == last);
                assert(search_spec(lines, term)[k] == parse_line_spec(lines[j1]));
            }
        };
        if forall|j: int| 0 <= j < lines.len() ==> !contains_spec(#[trigger] lines[j], term) {
            assert forall|j: int| 0 <= j < init.len() implies !contains_spec(
                #[trigger] init[j],
                term,
            ) by {
                assert(init[j] == lines[j]);
            };
            assert(!contains_spec(last, term));
            assert(search_spec(lines, term) =~= Seq::<EntryModel>::empty());
        }
    }
}

} // verus!
