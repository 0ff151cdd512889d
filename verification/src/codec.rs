//! Reading and writing the store as text: a section header line `[name]`
//! followed by `key=value` lines, one entry per line. Reading skips blank
//! and `;`/`#` comment lines and strips incidental blank space around the
//! header name, the key and the value, as the usual tools that write such
//! files expect; writing emits the plain normalized form. Parsing and
//! serialization are exact inverses on well-formed stores.

use vstd::prelude::*;
use crate::error::Error;
use crate::store::{
    Entry, EntryModel, Section, SectionModel, Store, entries_model, entries_wf, entry_from,
    entry_index, lemma_entry_index, lemma_entry_index_of, lemma_section_index,
    lemma_set_entries_from, section_index, spec_set_entries, spec_set_section_fields, store_wf,
};

verus! {

/// Split into lines at each newline; a trailing fragment without a newline
/// is a line of its own, and a trailing newline opens no empty line.
pub open spec fn spec_split_lines(s: Seq<char>) -> Seq<Seq<char>>
    decreases s.len(),
{
    if s.len() == 0 {
        Seq::empty()
    } else if s[0] == '\n' {
        seq![Seq::<char>::empty()] + spec_split_lines(s.drop_first())
    } else {
        let rest = spec_split_lines(s.drop_first());
        if rest.len() == 0 {
            seq![seq![s[0]]]
        } else {
            seq![seq![s[0]] + rest[0]] + rest.drop_first()
        }
    }
}

/// A run without newlines followed by a newline is one whole line.
proof fn lemma_split_line(x: Seq<char>, y: Seq<char>)
    requires
        forall|i: int| 0 <= i < x.len() ==> x[i] != '\n',
    ensures
        spec_split_lines(x + seq!['\n'] + y) == seq![x] + spec_split_lines(y),
    decreases x.len(),
{
    let s = x + seq!['\n'] + y;
    if x.len() == 0 {
        assert(s[0] == '\n');
        assert(s.drop_first() =~= y);
        assert(x =~= Seq::<char>::empty());
        assert(spec_split_lines(s) =~~= seq![x] + spec_split_lines(y));
    } else {
        assert(s[0] == x[0]);
        assert(s.drop_first() =~= x.drop_first() + seq!['\n'] + y);
        lemma_split_line(x.drop_first(), y);
        let rest = spec_split_lines(s.drop_first());
        assert(rest == seq![x.drop_first()] + spec_split_lines(y));
        assert(rest.len() > 0);
        assert(rest[0] == x.drop_first());
        assert(seq![s[0]] + rest[0] =~= x);
        assert(rest.drop_first() =~= spec_split_lines(y));
        assert(spec_split_lines(s) =~~= seq![x] + spec_split_lines(y));
    }
}

/// A nonempty run without newlines is one whole line.
proof fn lemma_split_no_newline(x: Seq<char>)
    requires
        x.len() > 0,
        forall|i: int| 0 <= i < x.len() ==> x[i] != '\n',
    ensures
        spec_split_lines(x) == seq![x],
    decreases x.len(),
{
    if x.len() == 1 {
        assert(x.drop_first() =~= Seq::<char>::empty());
        assert(seq![x[0]] =~= x);
        assert(spec_split_lines(x.drop_first()) == Seq::<Seq<char>>::empty());
        assert(spec_split_lines(x) =~~= seq![x]);
    } else {
        lemma_split_no_newline(x.drop_first());
        let rest = spec_split_lines(x.drop_first());
        assert(rest.len() > 0 && rest[0] == x.drop_first());
        assert(seq![x[0]] + rest[0] =~= x);
        assert(rest.drop_first() =~= Seq::<Seq<char>>::empty());
        assert(spec_split_lines(x) =~~= seq![x]);
    }
}

/// Model of a sequence of concrete lines.
pub open spec fn lines_model(v: Seq<String>) -> Seq<Seq<char>> {
    v.map_values(|l: String| l@)
}

/// Split the text into lines, exactly as `spec_split_lines` says.
pub fn split_lines(text: &str) -> (r: Vec<String>)
    ensures
        lines_model(r@) == spec_split_lines(text@),
{
    let n = text.unicode_len();
    let mut acc: Vec<String> = Vec::new();
    let mut start: usize = 0;
    let mut i: usize = 0;
    proof {
        assert(text@.skip(0) =~= text@);
        assert(lines_model(acc@) =~= Seq::<Seq<char>>::empty());
        assert(lines_model(acc@) + spec_split_lines(text@) =~~= spec_split_lines(text@));
    }
    while i < n
        invariant
            0 <= start <= i <= n,
            n == text@.len(),
            forall|k: int| start <= k < i ==> text@[k] != '\n',
            spec_split_lines(text@) == lines_model(acc@) + spec_split_lines(
                text@.skip(start as int),
            ),
        decreases n - i,
    {
        let c = text.get_char(i);
        if c == '\n' {
            let line = text.substring_char(start, i).to_owned();
            proof {
                let mid = text@.subrange(start as int, i as int);
                assert(text@.skip(start as int) =~= mid + seq!['\n'] + text@.skip(i as int + 1));
                lemma_split_line(mid, text@.skip(i as int + 1));
            }
            acc.push(line);
            proof {
                assert(lines_model(acc@) =~~= lines_model(acc@.drop_last()) + seq![
                    text@.subrange(start as int, i as int),
                ]);
            }
            start = i + 1;
        }
        i += 1;
    }
    if start < n {
        let line = text.substring_char(start, n).to_owned();
        proof {
            let mid = text@.subrange(start as int, n as int);
            assert(text@.skip(start as int) =~= mid);
            lemma_split_no_newline(mid);
        }
        acc.push(line);
        proof {
            assert(lines_model(acc@) =~~= lines_model(acc@.drop_last()) + seq![
                text@.subrange(start as int, n as int),
            ]);
        }
    } else {
        proof {
            assert(text@.skip(start as int) =~= Seq::<char>::empty());
        }
    }
    acc
}

/// Incidental blank space around a token: the format normalizes it away.
pub open spec fn is_space(c: char) -> bool {
    c == ' ' || c == '\t' || c == '\r'
}

/// Index of the first character that is not blank space; the length when
/// all of them are.
pub open spec fn first_nonspace(s: Seq<char>) -> nat
    decreases s.len(),
{
    if s.len() == 0 {
        0
    } else if is_space(s[0]) {
        1 + first_nonspace(s.drop_first())
    } else {
        0
    }
}

/// One past the last character that is not blank space; zero when all of
/// them are.
pub open spec fn last_nonspace_end(s: Seq<char>) -> nat
    decreases s.len(),
{
    if s.len() == 0 {
        0
    } else if is_space(s.last()) {
        last_nonspace_end(s.drop_last())
    } else {
        s.len()
    }
}

/// The text with blank space stripped from both ends.
pub open spec fn spec_trim(s: Seq<char>) -> Seq<char> {
    if last_nonspace_end(s) <= first_nonspace(s) {
        Seq::empty()
    } else {
        s.subrange(first_nonspace(s) as int, last_nonspace_end(s) as int)
    }
}

/// What `first_nonspace` points at.
proof fn lemma_first_nonspace(s: Seq<char>)
    ensures
        first_nonspace(s) <= s.len(),
        forall|k: int| 0 <= k < first_nonspace(s) ==> is_space(s[k]),
        first_nonspace(s) < s.len() ==> !is_space(s[first_nonspace(s) as int]),
    decreases s.len(),
{
    if s.len() > 0 && is_space(s[0]) {
        lemma_first_nonspace(s.drop_first());
        assert forall|k: int| 0 <= k < first_nonspace(s) implies is_space(s[k]) by {
            if k > 0 {
                assert(s.drop_first()[k - 1] == s[k]);
            }
        }
        if first_nonspace(s) < s.len() {
            assert(s.drop_first()[first_nonspace(s.drop_first()) as int] == s[first_nonspace(
                s,
            ) as int]);
        }
    }
}

/// What `last_nonspace_end` points at.
proof fn lemma_last_nonspace_end(s: Seq<char>)
    ensures
        last_nonspace_end(s) <= s.len(),
        forall|k: int| last_nonspace_end(s) <= k < s.len() ==> is_space(s[k]),
        last_nonspace_end(s) > 0 ==> !is_space(s[last_nonspace_end(s) as int - 1]),
    decreases s.len(),
{
    if s.len() > 0 && is_space(s.last()) {
        lemma_last_nonspace_end(s.drop_last());
        assert forall|k: int| last_nonspace_end(s) <= k < s.len() implies is_space(s[k]) by {
            if k < s.len() - 1 {
                assert(s.drop_last()[k] == s[k]);
            }
        }
        if last_nonspace_end(s) > 0 {
            assert(s.drop_last()[last_nonspace_end(s.drop_last()) as int - 1] == s[
                last_nonspace_end(s) as int - 1]);
        }
    }
}

/// The first run of blank space pins `first_nonspace`.
proof fn lemma_first_nonspace_of(s: Seq<char>, i: int)
    requires
        0 <= i <= s.len(),
        forall|k: int| 0 <= k < i ==> is_space(s[k]),
        i < s.len() ==> !is_space(s[i]),
    ensures
        first_nonspace(s) == i,
    decreases s.len(),
{
    if i > 0 {
        assert(forall|k: int| 0 <= k < i - 1 ==> #[trigger] s.drop_first()[k] == s[k + 1]);
        if i < s.len() {
            assert(s.drop_first()[i - 1] == s[i]);
        }
        lemma_first_nonspace_of(s.drop_first(), i - 1);
    }
}

/// The last run of blank space pins `last_nonspace_end`.
proof fn lemma_last_nonspace_end_of(s: Seq<char>, j: int)
    requires
        0 <= j <= s.len(),
        forall|k: int| j <= k < s.len() ==> is_space(s[k]),
        j > 0 ==> !is_space(s[j - 1]),
    ensures
        last_nonspace_end(s) == j,
    decreases s.len(),
{
    if j < s.len() {
        assert(forall|k: int|
            0 <= k < s.drop_last().len() ==> #[trigger] s.drop_last()[k] == s[k]);
        lemma_last_nonspace_end_of(s.drop_last(), j);
    }
}

/// Text without blank space at either end trims to itself.
proof fn lemma_trim_id(s: Seq<char>)
    requires
        s.len() == 0 || (!is_space(s[0]) && !is_space(s.last())),
    ensures
        spec_trim(s) == s,
{
    if s.len() == 0 {
        assert(spec_trim(s) =~= s);
    } else {
        assert(first_nonspace(s) == 0);
        assert(last_nonspace_end(s) == s.len());
        assert(spec_trim(s) =~= s);
    }
}

/// A trim never begins or ends with blank space, and keeps characters in
/// place relative to `first_nonspace`.
proof fn lemma_trim_shape(s: Seq<char>)
    ensures
        spec_trim(s).len() == 0 || (!is_space(spec_trim(s)[0]) && !is_space(spec_trim(s).last())),
        forall|k: int|
            0 <= k < spec_trim(s).len() ==> spec_trim(s)[k] == s[k + first_nonspace(s)],
        spec_trim(spec_trim(s)) == spec_trim(s),
{
    lemma_first_nonspace(s);
    lemma_last_nonspace_end(s);
    let t = spec_trim(s);
    if t.len() > 0 {
        assert(t[0] == s[first_nonspace(s) as int]);
        assert(t.last() == s[last_nonspace_end(s) as int - 1]);
        assert(last_nonspace_end(s) > 0) by {
            if last_nonspace_end(s) == 0 {
                assert(t.len() == 0);
            }
        }
    }
    lemma_trim_id(t);
}

/// Is the character incidental blank space?
fn is_space_char(c: char) -> (r: bool)
    ensures
        r == is_space(c),
{
    c == ' ' || c == '\t' || c == '\r'
}

/// Strip blank space from both ends, exactly as `spec_trim` says.
fn trim_str(s: &str) -> (r: String)
    ensures
        r@ == spec_trim(s@),
{
    let n = s.unicode_len();
    let mut i: usize = 0;
    while i < n && is_space_char(s.get_char(i))
        invariant
            i <= n,
            n == s@.len(),
            forall|k: int| 0 <= k < i ==> is_space(s@[k]),
        decreases n - i,
    {
        i += 1;
    }
    proof {
        lemma_first_nonspace_of(s@, i as int);
    }
    let mut j: usize = n;
    while j > 0 && is_space_char(s.get_char(j - 1))
        invariant
            j <= n,
            n == s@.len(),
            forall|k: int| j <= k < n ==> is_space(s@[k]),
        decreases j,
    {
        j -= 1;
    }
    proof {
        lemma_last_nonspace_end_of(s@, j as int);
    }
    if i < j {
        let r = s.substring_char(i, j).to_owned();
        proof {
            assert(r@ =~= spec_trim(s@));
        }
        r
    } else {
        let r = String::new();
        proof {
            assert(r@ =~= spec_trim(s@));
        }
        r
    }
}

/// A trimmed section header line: `[` name `]`.
pub open spec fn is_header_line(l: Seq<char>) -> bool {
    l.len() >= 2 && l[0] == '[' && l.last() == ']'
}

/// The name inside a trimmed header line, itself trimmed.
pub open spec fn header_name(l: Seq<char>) -> Seq<char> {
    spec_trim(l.subrange(1, l.len() - 1))
}

/// Index of the first `=`, or the length when there is none.
pub open spec fn first_eq(l: Seq<char>) -> nat
    decreases l.len(),
{
    if l.len() == 0 {
        0
    } else if l[0] == '=' {
        0
    } else {
        1 + first_eq(l.drop_first())
    }
}

/// `first_eq` finds the first `=`, and the length means there is none.
proof fn lemma_first_eq(l: Seq<char>)
    ensures
        first_eq(l) <= l.len(),
        first_eq(l) < l.len() ==> l[first_eq(l) as int] == '=',
        forall|i: int| 0 <= i < first_eq(l) ==> l[i] != '=',
    decreases l.len(),
{
    if l.len() > 0 && l[0] != '=' {
        lemma_first_eq(l.drop_first());
        assert forall|i: int| 0 <= i < first_eq(l) implies l[i] != '=' by {
            if i > 0 {
                assert(l.drop_first()[i - 1] == l[i]);
            }
        }
        if first_eq(l) < l.len() {
            assert(l.drop_first()[first_eq(l.drop_first()) as int] == l[first_eq(l) as int]);
        }
    }
}

/// The first match at `j` pins `first_eq` to `j`.
proof fn lemma_first_eq_of(l: Seq<char>, j: int)
    requires
        0 <= j < l.len(),
        l[j] == '=',
        forall|i: int| 0 <= i < j ==> l[i] != '=',
    ensures
        first_eq(l) == j,
    decreases l.len(),
{
    if j > 0 {
        assert(forall|i: int| 0 <= i < j - 1 ==> #[trigger] l.drop_first()[i] == l[i + 1]);
        assert(l.drop_first()[j - 1] == l[j]);
        lemma_first_eq_of(l.drop_first(), j - 1);
    }
}

/// The key of a trimmed `key=value` line: what stands before the first
/// `=`, trimmed.
pub open spec fn kv_key(l: Seq<char>) -> Seq<char> {
    spec_trim(l.take(first_eq(l) as int))
}

/// The value of a trimmed `key=value` line: everything after the first
/// `=`, trimmed.
pub open spec fn kv_value(l: Seq<char>) -> Seq<char> {
    spec_trim(l.skip(first_eq(l) as int + 1))
}

/// A comment line: its first meaningful character is `;` or `#`.
pub open spec fn is_comment_line(l: Seq<char>) -> bool {
    l.len() > 0 && (l[0] == ';' || l[0] == '#')
}

/// Parse the remaining lines on top of the sections read so far. Each
/// line is read with its incidental blank space stripped: a blank or
/// comment line is skipped; a line opening with `[` must be a header with
/// a fresh name and opens a section; any other line must be `key=value`
/// with a nonempty key, trimmed, that is new in the open section. Anything
/// else is a format error, as is an entry line before the first header.
pub open spec fn spec_parse_lines_from(
    lines: Seq<Seq<char>>,
    acc: Seq<SectionModel>,
) -> Option<Seq<SectionModel>>
    decreases lines.len(),
{
    if lines.len() == 0 {
        Some(acc)
    } else {
        let l = spec_trim(lines[0]);
        let rest = lines.drop_first();
        if l.len() == 0 || is_comment_line(l) {
            spec_parse_lines_from(rest, acc)
        } else if l[0] == '[' {
            if is_header_line(l) && section_index(acc, header_name(l)) == -1 {
                spec_parse_lines_from(
                    rest,
                    acc.push(SectionModel { name: header_name(l), entries: Seq::empty() }),
                )
            } else {
                None
            }
        } else {
            let e = first_eq(l);
            if e < l.len() && kv_key(l).len() > 0 && acc.len() > 0 && entry_index(
                acc.last().entries,
                kv_key(l),
            ) == -1 {
                spec_parse_lines_from(
                    rest,
                    acc.update(
                        acc.len() - 1,
                        SectionModel {
                            name: acc.last().name,
                            entries: acc.last().entries.push(
                                EntryModel { key: kv_key(l), value: kv_value(l) },
                            ),
                        },
                    ),
                )
            } else {
                None
            }
        }
    }
}

/// Parse a whole document.
pub open spec fn spec_parse(text: Seq<char>) -> Option<Seq<SectionModel>> {
    spec_parse_lines_from(spec_split_lines(text), Seq::empty())
}

/// Position of the first `=` of the line, or its length when there is none.
fn eq_position(line: &str) -> (r: usize)
    ensures
        r == first_eq(line@),
{
    let n = line.unicode_len();
    let mut j: usize = 0;
    while j < n
        invariant
            j <= n,
            n == line@.len(),
            forall|k: int| 0 <= k < j ==> line@[k] != '=',
        decreases n - j,
    {
        if line.get_char(j) == '=' {
            proof {
                lemma_first_eq_of(line@, j as int);
            }
            return j;
        }
        j += 1;
    }
    proof {
        lemma_first_eq(line@);
        if first_eq(line@) < line@.len() {
            assert(line@[first_eq(line@) as int] == '=');
        }
    }
    n
}

/// Index of the entry with this key, if present.
fn find_key(entries: &Vec<Entry>, key: &String) -> (r: Option<usize>)
    ensures
        match r {
            Some(i) => i < entries.len() && entry_index(entries_model(entries@), key@) == i,
            None => entry_index(entries_model(entries@), key@) == -1,
        },
{
    let ghost es = entries_model(entries@);
    let mut i: usize = 0;
    while i < entries.len()
        invariant
            i <= entries.len(),
            es == entries_model(entries@),
            forall|k: int| 0 <= k < i ==> es[k].key != key@,
        decreases entries.len() - i,
    {
        if entries[i].key.eq(key) {
            proof {
                lemma_entry_index_of(es, key@, i as int);
            }
            return Some(i);
        }
        i += 1;
    }
    proof {
        lemma_entry_index(es, key@);
        if entry_index(es, key@) >= 0 {
            assert(es[entry_index(es, key@)].key == key@);
        }
    }
    None
}

/// Parse the text into a store, exactly as `spec_parse` says; the result is
/// well formed. Content that no line grammar matches is a format error.
pub fn parse_store(text: &str) -> (r: Result<Store, Error>)
    ensures
        match r {
            Ok(s) => spec_parse(text@) == Some(s@) && store_wf(s@),
            Err(e) => spec_parse(text@) is None && e matches Error::StoreFormatError { .. },
        },
{
    let lines = split_lines(text);
    let ghost lv = lines_model(lines@);
    let mut store = Store::new();
    let mut i: usize = 0;
    proof {
        assert(lv.skip(0) =~= lv);
    }
    while i < lines.len()
        invariant
            i <= lines.len(),
            lv == lines_model(lines@),
            lv == spec_split_lines(text@),
            store_wf(store@),
            spec_parse(text@) == spec_parse_lines_from(lv.skip(i as int), store@),
        decreases lines.len() - i,
    {
        let line = &lines[i];
        let tls = trim_str(line.as_str());
        let llen = tls.as_str().unicode_len();
        let ghost tl = spec_trim(lv[i as int]);
        proof {
            assert(lv.skip(i as int)[0] == lv[i as int]);
            assert(lv.skip(i as int).drop_first() =~= lv.skip(i as int + 1));
            assert(tls@ == tl);
        }
        if llen == 0 {
            // blank line
        } else if tls.as_str().get_char(0) == ';' || tls.as_str().get_char(0) == '#' {
            // comment line
        } else if tls.as_str().get_char(0) == '[' {
            if llen < 2 || tls.as_str().get_char(llen - 1) != ']' {
                return Err(
                    Error::StoreFormatError {
                        detail: String::from_str("malformed section header"),
                    },
                );
            }
            let name = trim_str(tls.as_str().substring_char(1, llen - 1));
            proof {
                assert(name@ == header_name(tl));
            }
            match store.find_section(name.as_str()) {
                Some(_) => {
                    return Err(
                        Error::StoreFormatError {
                            detail: String::from_str("duplicate section name"),
                        },
                    );
                },
                None => {
                    let entries: Vec<Entry> = Vec::new();
                    let ghost m0 = store@;
                    store.sections.push(Section { name, entries });
                    proof {
                        assert(entries_model(Seq::<Entry>::empty()) =~= Seq::<
                            EntryModel,
                        >::empty());
                        assert(store@ =~~= m0.push(
                            SectionModel { name: header_name(tl), entries: Seq::empty() },
                        ));
                        lemma_section_index(m0, header_name(tl));
                        assert(store_wf(store@));
                    }
                },
            }
        } else {
            let e = eq_position(tls.as_str());
            if e >= llen {
                return Err(
                    Error::StoreFormatError {
                        detail: String::from_str("line is neither a section header nor a key=value pair"),
                    },
                );
            }
            let key = trim_str(tls.as_str().substring_char(0, e));
            if key.as_str().is_empty() {
                return Err(
                    Error::StoreFormatError {
                        detail: String::from_str("entry line with an empty key"),
                    },
                );
            }
            if store.sections.len() == 0 {
                return Err(
                    Error::StoreFormatError {
                        detail: String::from_str("entry line before any section header"),
                    },
                );
            }
            let value = trim_str(tls.as_str().substring_char(e + 1, llen));
            proof {
                assert(key@ == kv_key(tl));
                assert(value@ == kv_value(tl));
            }
            let n = store.sections.len();
            let last = &store.sections[n - 1];
            proof {
                assert(store@[n - 1] == store.sections@[n - 1]@);
            }
            match find_key(&last.entries, &key) {
                Some(_) => {
                    return Err(
                        Error::StoreFormatError {
                            detail: String::from_str("duplicate key in section"),
                        },
                    );
                },
                None => {
                    let ghost m0 = store@;
                    let mut sec = match store.sections.pop() {
                        Some(s) => s,
                        None => {
                            proof {
                                assert(false);
                            }
                            unreached()
                        },
                    };
                    sec.entries.push(Entry { key, value });
                    proof {
                        assert(entries_model(sec.entries@) =~= m0.last().entries.push(
                            EntryModel { key: kv_key(tl), value: kv_value(tl) },
                        ));
                    }
                    store.sections.push(sec);
                    proof {
                        let key_v = kv_key(tl);
                        let value_v = kv_value(tl);
                        assert(store@ =~~= m0.update(
                            m0.len() - 1,
                            SectionModel {
                                name: m0.last().name,
                                entries: m0.last().entries.push(
                                    EntryModel { key: key_v, value: value_v },
                                ),
                            },
                        ));
                        lemma_entry_index(m0.last().entries, key_v);
                        assert(forall|t: int|
                            0 <= t < m0.last().entries.len() ==> m0.last().entries[t].key
                                != key_v);
                        assert(entries_wf(
                            m0.last().entries.push(EntryModel { key: key_v, value: value_v }),
                        ));
                        assert(forall|j2: int|
                            0 <= j2 < store@.len() ==> store@[j2].name == #[trigger] m0[
                                j2
                            ].name);
                        assert(store_wf(store@));
                    }
                },
            }
        }
        i += 1;
    }
    proof {
        assert(lv.skip(lines@.len() as int) =~= Seq::<Seq<char>>::empty());
    }
    Ok(store)
}

/// Serialized form of one entry: `key=value` and a newline.
pub open spec fn ser_entry(e: EntryModel) -> Seq<char> {
    e.key + seq!['='] + e.value + seq!['\n']
}

/// Serialized form of a list of entries, in order.
pub open spec fn ser_entries(es: Seq<EntryModel>) -> Seq<char>
    decreases es.len(),
{
    if es.len() == 0 {
        Seq::empty()
    } else {
        ser_entries(es.drop_last()) + ser_entry(es.last())
    }
}

/// Serialized form of one section: its header line, then its entries.
pub open spec fn ser_section(s: SectionModel) -> Seq<char> {
    seq!['['] + s.name + seq![']', '\n'] + ser_entries(s.entries)
}

/// Serialized form of a whole store, section by section, in order.
pub open spec fn ser_store(s: Seq<SectionModel>) -> Seq<char>
    decreases s.len(),
{
    if s.len() == 0 {
        Seq::empty()
    } else {
        ser_store(s.drop_last()) + ser_section(s.last())
    }
}

/// Free of newlines: the text fits on one line.
pub open spec fn line_safe(x: Seq<char>) -> bool {
    forall|i: int| 0 <= i < x.len() ==> x[i] != '\n'
}

/// Untouched by the format's normalization: no blank space at either end.
pub open spec fn trim_stable(x: Seq<char>) -> bool {
    x.len() == 0 || (!is_space(x[0]) && !is_space(x.last()))
}

/// An entry the text form can carry back: a nonempty key free of `=` and
/// newlines that does not open like a header or a comment, and a value
/// free of newlines, both untouched by trimming.
pub open spec fn serializable_entry(e: EntryModel) -> bool {
    &&& e.key.len() > 0
    &&& e.key[0] != '[' && e.key[0] != ';' && e.key[0] != '#'
    &&& forall|i: int| 0 <= i < e.key.len() ==> e.key[i] != '\n' && e.key[i] != '='
    &&& trim_stable(e.key)
    &&& line_safe(e.value)
    &&& trim_stable(e.value)
}

/// A section the text form can carry back.
pub open spec fn serializable_section(sec: SectionModel) -> bool {
    &&& line_safe(sec.name)
    &&& trim_stable(sec.name)
    &&& forall|j: int| 0 <= j < sec.entries.len() ==> serializable_entry(#[trigger] sec.entries[j])
}

/// A store the text form can carry back.
pub open spec fn serializable(s: Seq<SectionModel>) -> bool {
    forall|i: int| 0 <= i < s.len() ==> serializable_section(#[trigger] s[i])
}

/// The text of an entry's line, without its newline.
pub open spec fn entry_line(e: EntryModel) -> Seq<char> {
    e.key + seq!['='] + e.value
}

/// The text of a section's header line, without its newline.
pub open spec fn header_line(sec: SectionModel) -> Seq<char> {
    seq!['['] + sec.name + seq![']']
}

/// The lines of one section: its header, then one line per entry.
pub open spec fn section_lines(sec: SectionModel) -> Seq<Seq<char>> {
    seq![header_line(sec)] + sec.entries.map_values(|e: EntryModel| entry_line(e))
}

/// The lines of a store, section by section.
pub open spec fn store_lines(s: Seq<SectionModel>) -> Seq<Seq<char>>
    decreases s.len(),
{
    if s.len() == 0 {
        Seq::empty()
    } else {
        section_lines(s[0]) + store_lines(s.drop_first())
    }
}

/// Serialize the store, exactly as `ser_store` says.
pub fn serialize_store(store: &Store) -> (r: String)
    ensures
        r@ == ser_store(store@),
{
    let mut out = String::new();
    let mut i: usize = 0;
    proof {
        assert(store@.take(0) =~= Seq::<SectionModel>::empty());
        assert(out@ =~= ser_store(store@.take(0)));
    }
    while i < store.sections.len()
        invariant
            i <= store.sections.len(),
            out@ == ser_store(store@.take(i as int)),
        decreases store.sections.len() - i,
    {
        let sec = &store.sections[i];
        proof {
            reveal_strlit("[");
            reveal_strlit("]\n");
            assert(sec@ == store@[i as int]);
            assert("["@ =~= seq!['[']);
            assert("]\n"@ =~= seq![']', '\n']);
        }
        out.append("[");
        out.append(sec.name.as_str());
        out.append("]\n");
        let ghost sec_prefix = out@;
        proof {
            assert(sec_prefix =~= ser_store(store@.take(i as int)) + seq!['['] + store@[
                i as int
            ].name + seq![']', '\n']);
            assert(store@[i as int].entries.take(0) =~= Seq::<EntryModel>::empty());
        }
        let mut j: usize = 0;
        while j < sec.entries.len()
            invariant
                j <= sec.entries.len(),
                i < store.sections.len(),
                sec == &store.sections[i as int],
                sec@ == store@[i as int],
                sec_prefix == ser_store(store@.take(i as int)) + seq!['['] + store@[
                    i as int
                ].name + seq![']', '\n'],
                out@ == sec_prefix + ser_entries(store@[i as int].entries.take(j as int)),
            decreases sec.entries.len() - j,
        {
            let entry = &sec.entries[j];
            proof {
                reveal_strlit("=");
                reveal_strlit("\n");
                assert(entry@ == store@[i as int].entries[j as int]);
                assert("="@ =~= seq!['=']);
                assert("\n"@ =~= seq!['\n']);
            }
            out.append(entry.key.as_str());
            out.append("=");
            out.append(entry.value.as_str());
            out.append("\n");
            proof {
                let es = store@[i as int].entries;
                assert(es.take(j as int + 1).drop_last() =~= es.take(j as int));
                assert(es.take(j as int + 1).last() == es[j as int]);
                assert(out@ =~= sec_prefix + (ser_entries(es.take(j as int)) + ser_entry(
                    es[j as int],
                )));
                assert(ser_entries(es.take(j as int + 1)) == ser_entries(es.take(j as int))
                    + ser_entry(es[j as int]));
            }
            j += 1;
        }
        proof {
            let es = store@[i as int].entries;
            assert(es.take(es.len() as int) =~= es);
            assert(store@.take(i as int + 1).drop_last() =~= store@.take(i as int));
            assert(store@.take(i as int + 1).last() == store@[i as int]);
            assert(out@ =~= ser_store(store@.take(i as int)) + ser_section(store@[i as int]));
            assert(ser_store(store@.take(i as int + 1)) == ser_store(store@.take(i as int))
                + ser_section(store@[i as int]));
        }
        i += 1;
    }
    proof {
        assert(store@.take(store.sections@.len() as int) =~= store@);
    }
    out
}

/// Splitting distributes over concatenation after a trailing newline.
proof fn lemma_split_append(x: Seq<char>, y: Seq<char>)
    requires
        x.len() == 0 || x.last() == '\n',
    ensures
        spec_split_lines(x + y) == spec_split_lines(x) + spec_split_lines(y),
    decreases x.len(),
{
    if x.len() == 0 {
        assert(x + y =~= y);
        assert(spec_split_lines(x) =~= Seq::<Seq<char>>::empty());
        assert(spec_split_lines(x) + spec_split_lines(y) =~~= spec_split_lines(y));
    } else if x[0] == '\n' {
        let xdf = x.drop_first();
        assert((x + y)[0] == '\n');
        assert((x + y).drop_first() =~= xdf + y);
        lemma_split_append(xdf, y);
        assert(spec_split_lines(x + y) =~~= spec_split_lines(x) + spec_split_lines(y));
    } else {
        let xdf = x.drop_first();
        assert(x.len() >= 2);
        assert(xdf.last() == '\n');
        lemma_split_append(xdf, y);
        assert((x + y)[0] == x[0]);
        assert((x + y).drop_first() =~= xdf + y);
        // a split of nonempty text is nonempty
        assert(spec_split_lines(xdf).len() > 0);
        let rest = spec_split_lines(xdf + y);
        assert(rest == spec_split_lines(xdf) + spec_split_lines(y));
        assert(rest.len() > 0);
        assert(rest[0] == spec_split_lines(xdf)[0]);
        assert(rest.drop_first() =~= spec_split_lines(xdf).drop_first() + spec_split_lines(y));
        assert(spec_split_lines(x + y) =~~= spec_split_lines(x) + spec_split_lines(y));
    }
}

/// A serialized entry list is empty or ends with a newline.
proof fn lemma_ser_entries_ends_nl(es: Seq<EntryModel>)
    ensures
        ser_entries(es).len() == 0 || ser_entries(es).last() == '\n',
    decreases es.len(),
{
    if es.len() > 0 {
        let e = es.last();
        assert(ser_entry(e).last() == '\n');
        assert(ser_entries(es).last() == ser_entry(e).last());
    }
}

/// A serialized section is nonempty and ends with a newline.
proof fn lemma_ser_section_ends_nl(sec: SectionModel)
    ensures
        ser_section(sec).len() > 0,
        ser_section(sec).last() == '\n',
{
    lemma_ser_entries_ends_nl(sec.entries);
    if ser_entries(sec.entries).len() == 0 {
        assert(ser_section(sec).last() == (seq!['['] + sec.name + seq![']', '\n']).last());
    } else {
        assert(ser_section(sec).last() == ser_entries(sec.entries).last());
    }
}

/// A serialized store is empty or ends with a newline.
proof fn lemma_ser_store_ends_nl(s: Seq<SectionModel>)
    ensures
        ser_store(s).len() == 0 || ser_store(s).last() == '\n',
    decreases s.len(),
{
    if s.len() > 0 {
        lemma_ser_section_ends_nl(s.last());
        assert(ser_store(s).last() == ser_section(s.last()).last());
    }
}

/// The lines of a serialized entry list are the entries' lines.
proof fn lemma_split_ser_entries(es: Seq<EntryModel>)
    requires
        forall|j: int| 0 <= j < es.len() ==> serializable_entry(#[trigger] es[j]),
    ensures
        spec_split_lines(ser_entries(es)) == es.map_values(|e: EntryModel| entry_line(e)),
    decreases es.len(),
{
    if es.len() == 0 {
        assert(ser_entries(es) =~= Seq::<char>::empty());
        assert(spec_split_lines(ser_entries(es)) =~~= es.map_values(
            |e: EntryModel| entry_line(e),
        ));
    } else {
        let e = es.last();
        lemma_split_ser_entries(es.drop_last());
        lemma_ser_entries_ends_nl(es.drop_last());
        lemma_split_append(ser_entries(es.drop_last()), ser_entry(e));
        assert(forall|i: int| 0 <= i < entry_line(e).len() ==> entry_line(e)[i] != '\n');
        assert(ser_entry(e) =~= entry_line(e) + seq!['\n'] + Seq::<char>::empty());
        lemma_split_line(entry_line(e), Seq::empty());
        assert(spec_split_lines(Seq::<char>::empty()) =~= Seq::<Seq<char>>::empty());
        assert(spec_split_lines(ser_entry(e)) =~~= seq![entry_line(e)]);
        assert(spec_split_lines(ser_entries(es)) =~~= es.map_values(
            |e2: EntryModel| entry_line(e2),
        ));
    }
}

/// A serialized store read from the front: first section, then the rest.
proof fn lemma_ser_store_cons(s: Seq<SectionModel>)
    requires
        s.len() > 0,
    ensures
        ser_store(s) == ser_section(s[0]) + ser_store(s.drop_first()),
    decreases s.len(),
{
    if s.len() == 1 {
        assert(s.drop_last() =~= Seq::<SectionModel>::empty());
        assert(s.drop_first() =~= Seq::<SectionModel>::empty());
        assert(ser_store(Seq::<SectionModel>::empty()) == Seq::<char>::empty());
        assert(ser_store(s) =~= ser_section(s[0]) + ser_store(s.drop_first()));
    } else {
        let sdl = s.drop_last();
        lemma_ser_store_cons(sdl);
        assert(sdl[0] == s[0]);
        assert(sdl.drop_first() =~= s.drop_first().drop_last());
        assert(s.drop_first().last() == s.last());
        assert(ser_store(s.drop_first()) == ser_store(s.drop_first().drop_last()) + ser_section(
            s.last(),
        ));
        assert(ser_store(s) =~= ser_section(s[0]) + ser_store(s.drop_first()));
    }
}

/// The lines of a serialized store are its sections' lines.
proof fn lemma_split_ser_store(s: Seq<SectionModel>)
    requires
        serializable(s),
    ensures
        spec_split_lines(ser_store(s)) == store_lines(s),
    decreases s.len(),
{
    if s.len() == 0 {
        assert(ser_store(s) =~= Seq::<char>::empty());
        assert(spec_split_lines(ser_store(s)) =~~= store_lines(s));
    } else {
        let sec = s[0];
        lemma_ser_store_cons(s);
        lemma_ser_section_ends_nl(sec);
        lemma_split_append(ser_section(sec), ser_store(s.drop_first()));
        assert(serializable(s.drop_first())) by {
            assert(forall|i: int|
                0 <= i < s.drop_first().len() ==> #[trigger] s.drop_first()[i] == s[i + 1]);
        }
        lemma_split_ser_store(s.drop_first());
        // the section's own text splits into its header line and entry lines
        assert(forall|i: int| 0 <= i < header_line(sec).len() ==> header_line(sec)[i] != '\n');
        assert(ser_section(sec) =~= header_line(sec) + seq!['\n'] + ser_entries(sec.entries));
        lemma_split_line(header_line(sec), ser_entries(sec.entries));
        assert(forall|j: int| 0 <= j < sec.entries.len() ==> serializable_entry(
            #[trigger] sec.entries[j],
        ));
        lemma_split_ser_entries(sec.entries);
        assert(spec_split_lines(ser_section(sec)) =~~= section_lines(sec));
        assert(spec_split_lines(ser_store(s)) =~~= store_lines(s));
    }
}

/// Parsing entry lines fills the open section with exactly those entries,
/// and goes on with the remaining lines.
proof fn lemma_parse_entry_lines(
    acc: Seq<SectionModel>,
    es: Seq<EntryModel>,
    rest: Seq<Seq<char>>,
)
    requires
        acc.len() > 0,
        forall|j: int| 0 <= j < es.len() ==> serializable_entry(#[trigger] es[j]),
        entries_wf(acc.last().entries + es),
    ensures
        spec_parse_lines_from(es.map_values(|e: EntryModel| entry_line(e)) + rest, acc)
            == spec_parse_lines_from(
            rest,
            acc.update(
                acc.len() - 1,
                SectionModel { name: acc.last().name, entries: acc.last().entries + es },
            ),
        ),
    decreases es.len(),
{
    let lines = es.map_values(|e: EntryModel| entry_line(e)) + rest;
    if es.len() == 0 {
        assert(lines =~= rest);
        assert(acc.last().entries + es =~= acc.last().entries);
        assert(acc.update(
            acc.len() - 1,
            SectionModel { name: acc.last().name, entries: acc.last().entries + es },
        ) =~~= acc);
    } else {
        let e0 = es[0];
        let l = entry_line(e0);
        assert(lines[0] == l);
        assert(l.len() == e0.key.len() + 1 + e0.value.len());
        assert(serializable_entry(e0));
        assert(l[0] == e0.key[0]);
        assert(l[0] != '[');
        // the line is already free of edge blank space, and no comment
        assert(!is_space(l[0]));
        if e0.value.len() > 0 {
            assert(l.last() == e0.value.last());
        } else {
            assert(l.last() == '=');
        }
        assert(!is_space(l.last()));
        lemma_trim_id(l);
        assert(spec_trim(lines[0]) == l);
        assert(l[0] != ';' && l[0] != '#');
        // the first `=` of the line closes the key
        assert(l[e0.key.len() as int] == '=');
        assert(forall|i: int| 0 <= i < e0.key.len() ==> l[i] == e0.key[i]);
        lemma_first_eq_of(l, e0.key.len() as int);
        assert(l.take(e0.key.len() as int) =~= e0.key);
        lemma_trim_id(e0.key);
        assert(kv_key(l) == e0.key);
        assert(l.skip(e0.key.len() as int + 1) =~= e0.value);
        lemma_trim_id(e0.value);
        assert(kv_value(l) == e0.value);
        // the key is new in the open section
        let base = acc.last().entries;
        assert((base + es)[base.len() as int] == e0);
        assert(forall|j: int| 0 <= j < base.len() ==> (base + es)[j] == base[j]);
        assert(forall|j: int| 0 <= j < base.len() ==> base[j].key != e0.key);
        lemma_entry_index(base, e0.key);
        if entry_index(base, e0.key) >= 0 {
            assert(base[entry_index(base, e0.key)].key == e0.key);
        }
        assert(entry_index(base, kv_key(l)) == -1);
        // one entry line consumed
        let acc1 = acc.update(
            acc.len() - 1,
            SectionModel {
                name: acc.last().name,
                entries: base.push(EntryModel { key: kv_key(l), value: kv_value(l) }),
            },
        );
        assert(EntryModel { key: kv_key(l), value: kv_value(l) } =~= e0);
        assert(acc1.last().entries =~= base.push(e0));
        assert(lines.drop_first() =~= es.drop_first().map_values(|e: EntryModel| entry_line(e))
            + rest);
        assert(forall|j: int|
            0 <= j < es.drop_first().len() ==> #[trigger] es.drop_first()[j] == es[j + 1]);
        assert(base.push(e0) + es.drop_first() =~= base + es);
        lemma_parse_entry_lines(acc1, es.drop_first(), rest);
        assert(acc1.update(
            acc1.len() - 1,
            SectionModel { name: acc1.last().name, entries: acc1.last().entries + es.drop_first() },
        ) =~~= acc.update(
            acc.len() - 1,
            SectionModel { name: acc.last().name, entries: base + es },
        ));
        assert(spec_parse_lines_from(lines, acc) == spec_parse_lines_from(
            lines.drop_first(),
            acc1,
        ));
    }
}

/// Parsing a store's lines on top of sections already read appends exactly
/// those sections.
proof fn lemma_parse_store_lines(s: Seq<SectionModel>, acc: Seq<SectionModel>)
    requires
        store_wf(acc + s),
        serializable(s),
    ensures
        spec_parse_lines_from(store_lines(s), acc) == Some(acc + s),
    decreases s.len(),
{
    if s.len() == 0 {
        assert(acc + s =~= acc);
    } else {
        let sec = s[0];
        let lines = store_lines(s);
        let hl = header_line(sec);
        assert(lines =~= section_lines(sec) + store_lines(s.drop_first()));
        assert(lines[0] == hl);
        assert(hl.len() == sec.name.len() + 2);
        assert(hl[0] == '[');
        assert(hl.last() == ']');
        assert(!is_space(hl[0]) && !is_space(hl.last()));
        lemma_trim_id(hl);
        assert(spec_trim(lines[0]) == hl);
        assert(!is_comment_line(hl));
        assert(is_header_line(hl));
        assert(serializable_section(sec));
        assert(hl.subrange(1, hl.len() - 1) =~= sec.name);
        lemma_trim_id(sec.name);
        assert(header_name(hl) == sec.name);
        // the name is new
        assert((acc + s)[acc.len() as int] == sec);
        assert(forall|j: int| 0 <= j < acc.len() ==> (acc + s)[j] == acc[j]);
        assert(forall|j: int| 0 <= j < acc.len() ==> acc[j].name != sec.name);
        lemma_section_index(acc, sec.name);
        if section_index(acc, sec.name) >= 0 {
            assert(acc[section_index(acc, sec.name)].name == sec.name);
        }
        assert(section_index(acc, header_name(hl)) == -1);
        // the header line opens the section
        let acc1 = acc.push(SectionModel { name: header_name(hl), entries: Seq::empty() });
        assert(lines.drop_first() =~= sec.entries.map_values(|e: EntryModel| entry_line(e))
            + store_lines(s.drop_first()));
        assert(spec_parse_lines_from(lines, acc) == spec_parse_lines_from(
            lines.drop_first(),
            acc1,
        ));
        // the entry lines fill it
        assert(serializable_section(sec));
        assert(entries_wf(sec.entries));
        assert(acc1.last().entries + sec.entries =~= sec.entries);
        assert(entries_wf(acc1.last().entries + sec.entries));
        lemma_parse_entry_lines(
            acc1,
            sec.entries,
            store_lines(s.drop_first()),
        );
        let acc2 = acc1.update(
            acc1.len() - 1,
            SectionModel { name: acc1.last().name, entries: acc1.last().entries + sec.entries },
        );
        assert(acc2 =~~= acc.push(sec));
        // the remaining sections follow
        assert(acc.push(sec) + s.drop_first() =~= acc + s);
        assert(serializable(s.drop_first())) by {
            assert(forall|i: int|
                0 <= i < s.drop_first().len() ==> #[trigger] s.drop_first()[i] == s[i + 1]);
        }
        lemma_parse_store_lines(s.drop_first(), acc.push(sec));
    }
}

/// Setting serializable fields under a line-safe name keeps the store
/// serializable: nothing unserializable is ever written into it.
pub proof fn lemma_set_section_fields_serializable(
    s: Seq<SectionModel>,
    name: Seq<char>,
    fields: Seq<EntryModel>,
)
    requires
        serializable(s),
        line_safe(name),
        trim_stable(name),
        forall|k: int| 0 <= k < fields.len() ==> serializable_entry(#[trigger] fields[k]),
    ensures
        serializable(spec_set_section_fields(s, name, fields)),
{
    let i = section_index(s, name);
    lemma_section_index(s, name);
    let s2 = spec_set_section_fields(s, name, fields);
    if i >= 0 {
        lemma_set_entries_from(s[i].entries, fields);
        let es2 = spec_set_entries(s[i].entries, fields);
        assert(serializable_section(s[i]));
        assert forall|j: int| 0 <= j < es2.len() implies serializable_entry(
            #[trigger] es2[j],
        ) by {
            assert(entry_from(spec_set_entries(s[i].entries, fields)[j], s[i].entries, fields));
            if exists|k: int| 0 <= k < s[i].entries.len() && es2[j] == s[i].entries[k] {
                let k = choose|k: int| 0 <= k < s[i].entries.len() && es2[j] == s[i].entries[k];
                assert(serializable_entry(s[i].entries[k]));
            } else {
                let k = choose|k: int| 0 <= k < fields.len() && es2[j] == fields[k];
                assert(serializable_entry(fields[k]));
            }
        }
        assert(serializable_section(s2[i]));
        assert forall|u: int| 0 <= u < s2.len() implies serializable_section(
            #[trigger] s2[u],
        ) by {
            if u != i {
                assert(s2[u] == s[u]);
            }
        }
    } else {
        lemma_set_entries_from(Seq::empty(), fields);
        let es2 = spec_set_entries(Seq::<EntryModel>::empty(), fields);
        assert forall|j: int| 0 <= j < es2.len() implies serializable_entry(
            #[trigger] es2[j],
        ) by {
            assert(entry_from(
                spec_set_entries(Seq::<EntryModel>::empty(), fields)[j],
                Seq::empty(),
                fields,
            ));
            let k = choose|k: int| 0 <= k < fields.len() && es2[j] == fields[k];
            assert(serializable_entry(fields[k]));
        }
        assert(serializable_section(s2[s.len() as int]));
        assert forall|u: int| 0 <= u < s2.len() implies serializable_section(
            #[trigger] s2[u],
        ) by {
            if u < s.len() {
                assert(s2[u] == s[u]);
            }
        }
    }
}

/// No line of a split contains a newline.
proof fn lemma_split_lines_line_safe(s: Seq<char>)
    ensures
        forall|i: int| 0 <= i < spec_split_lines(s).len() ==> line_safe(
            #[trigger] spec_split_lines(s)[i],
        ),
    decreases s.len(),
{
    let r = spec_split_lines(s);
    if s.len() == 0 {
    } else if s[0] == '\n' {
        lemma_split_lines_line_safe(s.drop_first());
        assert forall|i: int| 0 <= i < r.len() implies line_safe(#[trigger] r[i]) by {
            if i == 0 {
                assert(r[0] =~= Seq::<char>::empty());
            } else {
                assert(r[i] == spec_split_lines(s.drop_first())[i - 1]);
            }
        }
    } else {
        lemma_split_lines_line_safe(s.drop_first());
        let rest = spec_split_lines(s.drop_first());
        assert forall|i: int| 0 <= i < r.len() implies line_safe(#[trigger] r[i]) by {
            if rest.len() == 0 {
                assert(r[0] == seq![s[0]]);
            } else if i == 0 {
                assert(r[0] == seq![s[0]] + rest[0]);
                assert(line_safe(rest[0]));
            } else {
                assert(r[i] == rest[i]);
            }
        }
    }
}

/// Whatever parsing accepts on top of serializable sections is
/// serializable.
proof fn lemma_parse_lines_serializable(lines: Seq<Seq<char>>, acc: Seq<SectionModel>)
    requires
        forall|i: int| 0 <= i < lines.len() ==> line_safe(#[trigger] lines[i]),
        serializable(acc),
    ensures
        spec_parse_lines_from(lines, acc) matches Some(s) ==> serializable(s),
    decreases lines.len(),
{
    if lines.len() > 0 {
        let l = spec_trim(lines[0]);
        let rest = lines.drop_first();
        assert(forall|i: int| 0 <= i < rest.len() ==> line_safe(#[trigger] rest[i]));
        lemma_first_nonspace(lines[0]);
        lemma_last_nonspace_end(lines[0]);
        lemma_trim_shape(lines[0]);
        assert(line_safe(lines[0]));
        assert forall|k: int| 0 <= k < l.len() implies l[k] != '\n' by {
            assert(l[k] == lines[0][k + first_nonspace(lines[0])]);
        }
        assert(line_safe(l));
        if l.len() == 0 || is_comment_line(l) {
            lemma_parse_lines_serializable(rest, acc);
        } else if l[0] == '[' {
            if is_header_line(l) && section_index(acc, header_name(l)) == -1 {
                let inner = l.subrange(1, l.len() - 1);
                lemma_first_nonspace(inner);
                lemma_last_nonspace_end(inner);
                lemma_trim_shape(inner);
                let sec = SectionModel { name: header_name(l), entries: Seq::empty() };
                assert forall|k: int| 0 <= k < sec.name.len() implies sec.name[k] != '\n' by {
                    assert(sec.name[k] == inner[k + first_nonspace(inner)]);
                }
                assert(line_safe(sec.name));
                assert(trim_stable(sec.name));
                assert(serializable_section(sec));
                let acc1 = acc.push(sec);
                assert forall|i: int| 0 <= i < acc1.len() implies serializable_section(
                    #[trigger] acc1[i],
                ) by {
                    if i < acc.len() {
                        assert(acc1[i] == acc[i]);
                    }
                }
                lemma_parse_lines_serializable(rest, acc1);
            }
        } else {
            let e = first_eq(l);
            if e < l.len() && kv_key(l).len() > 0 && acc.len() > 0 && entry_index(
                acc.last().entries,
                kv_key(l),
            ) == -1 {
                lemma_first_eq(l);
                let before = l.take(e as int);
                let after = l.skip(e as int + 1);
                lemma_last_nonspace_end(before);
                lemma_trim_shape(before);
                lemma_first_nonspace(after);
                lemma_last_nonspace_end(after);
                lemma_trim_shape(after);
                let entry = EntryModel { key: kv_key(l), value: kv_value(l) };
                // the trimmed key starts where the line does
                assert(!is_space(l[0]));
                assert(before[0] == l[0]);
                assert(first_nonspace(before) == 0);
                assert forall|k: int| 0 <= k < entry.key.len() implies entry.key[k] != '\n'
                    && entry.key[k] != '=' by {
                    assert(entry.key[k] == before[k + first_nonspace(before)]);
                    assert(entry.key[k] == l[k]);
                }
                assert(entry.key[0] == l[0]);
                assert(trim_stable(entry.key));
                assert forall|k: int| 0 <= k < entry.value.len() implies entry.value[k]
                    != '\n' by {
                    assert(entry.value[k] == after[k + first_nonspace(after)]);
                }
                assert(line_safe(entry.value));
                assert(trim_stable(entry.value));
                assert(serializable_entry(entry));
                let sec = SectionModel {
                    name: acc.last().name,
                    entries: acc.last().entries.push(entry),
                };
                assert(serializable_section(acc.last()));
                assert forall|j: int| 0 <= j < sec.entries.len() implies serializable_entry(
                    #[trigger] sec.entries[j],
                ) by {
                    if j < acc.last().entries.len() {
                        assert(sec.entries[j] == acc.last().entries[j]);
                    }
                }
                let acc1 = acc.update(acc.len() - 1, sec);
                assert forall|i: int| 0 <= i < acc1.len() implies serializable_section(
                    #[trigger] acc1[i],
                ) by {
                    if i < acc.len() - 1 {
                        assert(acc1[i] == acc[i]);
                    }
                }
                lemma_parse_lines_serializable(rest, acc1);
            }
        }
    }
}

/// Whatever parses is serializable: a store read back from its text can
/// always be written out again, faithfully.
pub proof fn lemma_parsed_store_serializable(text: Seq<char>)
    ensures
        spec_parse(text) matches Some(s) ==> serializable(s),
{
    lemma_split_lines_line_safe(text);
    assert(serializable(Seq::<SectionModel>::empty()));
    lemma_parse_lines_serializable(spec_split_lines(text), Seq::empty());
}

/// Parsing carries a serialized well-formed store back exactly: the two
/// text operations are inverses on everything reconciliation produces.
pub proof fn lemma_round_trip(s: Seq<SectionModel>)
    requires
        store_wf(s),
        serializable(s),
    ensures
        spec_parse(ser_store(s)) == Some(s),
{
    lemma_split_ser_store(s);
    assert(Seq::<SectionModel>::empty() + s =~= s);
    lemma_parse_store_lines(s, Seq::empty());
}

} // verus!
