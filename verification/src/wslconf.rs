//! Guest configuration file handling.
//!
//! The per-guest configuration file is a line-based key/value format with
//! sections. This module parses it, reads and rewrites the setting that
//! controls the guest's internal resolver-file generation, and serializes
//! the result back to text. The grammar accepted here: blank lines and lines
//! starting with `;` or `#` (after trimming) are skipped; `[name]` opens a
//! section; `key=value` adds an entry to the open section, with key and
//! value trimmed; anything else, an unclosed section header, an empty key,
//! or an entry before any section is a parse error. On reading, a later
//! occurrence of a section or key overrides an earlier one.

use crate::text::{
    first_index_of, is_space, is_trimmed, lemma_first_index_of, lemma_leading_spaces,
    lemma_lines_concat, lemma_lines_newline_free, lemma_lines_single, lemma_trailing_spaces,
    lemma_trim_noop, lemma_trim_trimmed, leading_spaces, newline_free, spec_lines, spec_trim,
    split_lines, trailing_spaces, trim_str,
};
use vstd::prelude::*;

verus! {

/// One section of a guest configuration file.
#[derive(Debug)]
pub struct IniSection {
    pub name: String,
    pub entries: Vec<(String, String)>,
}

/// Mathematical model of an `IniSection`.
pub struct IniSectionView {
    pub name: Seq<char>,
    pub entries: Seq<(Seq<char>, Seq<char>)>,
}

impl View for IniSection {
    type V = IniSectionView;

    open spec fn view(&self) -> IniSectionView {
        IniSectionView {
            name: self.name@,
            entries: self.entries@.map_values(|e: (String, String)| (e.0@, e.1@)),
        }
    }
}

/// A parsed guest configuration file: its sections in file order.
#[derive(Debug)]
pub struct IniDoc {
    pub sections: Vec<IniSection>,
}

impl View for IniDoc {
    type V = Seq<IniSectionView>;

    open spec fn view(&self) -> Seq<IniSectionView> {
        self.sections@.map_values(|s: IniSection| s@)
    }
}

impl IniDoc {
    /// An empty configuration document.
    pub fn new() -> (r: Self)
        ensures
            r@ == Seq::<IniSectionView>::empty(),
    {
        let r = IniDoc { sections: Vec::new() };
        proof {
            assert(r@ =~= Seq::<IniSectionView>::empty());
        }
        r
    }
}

/// Whether a trimmed line is a comment.
pub open spec fn line_is_comment(t: Seq<char>) -> bool {
    t.len() > 0 && (t.first() == ';' || t.first() == '#')
}

/// Whether a trimmed line is a well-formed section header.
pub open spec fn line_is_section(t: Seq<char>) -> bool {
    t.len() >= 2 && t.first() == '[' && t.last() == ']'
}

/// The section name of a well-formed header: the trimmed interior.
pub open spec fn section_name_of(t: Seq<char>) -> Seq<char> {
    spec_trim(t.subrange(1, t.len() - 1))
}

/// The entry of a trimmed `key=value` line: key and value trimmed around the
/// first `=`; nothing when there is no `=` or the key is empty.
pub open spec fn line_entry(t: Seq<char>) -> Option<(Seq<char>, Seq<char>)> {
    if t.contains('=') {
        let k = spec_trim(t.take(first_index_of(t, '=')));
        let v = spec_trim(t.skip(first_index_of(t, '=') + 1));
        if k.len() == 0 {
            None
        } else {
            Some((k, v))
        }
    } else {
        None
    }
}

/// What parsing the remaining lines yields, given the sections accumulated
/// so far.
pub open spec fn spec_parse_ini_lines(
    lines: Seq<Seq<char>>,
    acc: Seq<IniSectionView>,
) -> Option<Seq<IniSectionView>>
    decreases lines.len(),
{
    if lines.len() == 0 {
        Some(acc)
    } else {
        let t = spec_trim(lines.first());
        let rest = lines.drop_first();
        if t.len() == 0 || line_is_comment(t) {
            spec_parse_ini_lines(rest, acc)
        } else if t.first() == '[' {
            if line_is_section(t) {
                spec_parse_ini_lines(
                    rest,
                    acc.push(
                        IniSectionView {
                            name: section_name_of(t),
                            entries: Seq::empty(),
                        },
                    ),
                )
            } else {
                None
            }
        } else {
            match line_entry(t) {
                Some(e) => if acc.len() == 0 {
                    None
                } else {
                    spec_parse_ini_lines(
                        rest,
                        acc.drop_last().push(
                            IniSectionView {
                                name: acc.last().name,
                                entries: acc.last().entries.push(e),
                            },
                        ),
                    )
                },
                None => None,
            }
        }
    }
}

/// What parsing a whole configuration text yields.
pub open spec fn spec_parse_ini(s: Seq<char>) -> Option<Seq<IniSectionView>> {
    spec_parse_ini_lines(spec_lines(s), Seq::empty())
}

/// Parses a guest configuration text into its sections, or nothing when any
/// line is malformed.
pub fn parse_ini(text: &str) -> (r: Option<IniDoc>)
    ensures
        match r {
            Some(doc) => spec_parse_ini(text@) == Some(doc@),
            None => spec_parse_ini(text@) is None,
        },
{
    let lines = split_lines(text);
    let ghost line_views = spec_lines(text@);
    let mut doc = IniDoc::new();
    proof {
        assert(line_views.skip(0) =~= line_views);
    }
    let m = lines.len();
    let mut i: usize = 0;
    while i < m
        invariant
            0 <= i <= m,
            m == lines@.len(),
            lines@.map_values(|t: String| t@) == line_views,
            spec_parse_ini(text@) == spec_parse_ini_lines(line_views.skip(i as int), doc@),
        decreases m - i,
    {
        let t = trim_str(lines[i].as_str());
        let ghost tv = spec_trim(line_views[i as int]);
        proof {
            assert(lines@[i as int]@ == line_views[i as int]);
            assert(t@ == tv);
            assert(line_views.skip(i as int).first() == line_views[i as int]);
            assert(line_views.skip(i as int).drop_first() =~= line_views.skip(i as int + 1));
        }
        let tn = t.unicode_len();
        if tn == 0 {
            // blank line
        } else {
            let c0 = t.get_char(0);
            if c0 == ';' || c0 == '#' {
                // comment line
            } else if c0 == '[' {
                if tn >= 2 && t.get_char(tn - 1) == ']' {
                    let interior = t.substring_char(1, tn - 1);
                    let name = trim_str(interior).to_owned();
                    let ghost acc0 = doc@;
                    proof {
                        assert(interior@ =~= tv.subrange(1, tv.len() - 1));
                        assert(name@ == section_name_of(tv));
                    }
                    doc.sections.push(IniSection { name, entries: Vec::new() });
                    proof {
                        let sec = IniSectionView {
                            name: section_name_of(tv),
                            entries: Seq::empty(),
                        };
                        assert(doc@ =~= acc0.push(sec)) by {
                            assert(doc.sections@.last()@.entries
                                =~= Seq::<(Seq<char>, Seq<char>)>::empty());
                            assert(doc@.last() =~= sec);
                        }
                    }
                } else {
                    proof {
                        assert(tv.first() == '[');
                        assert(!line_is_section(tv)) by {
                            if tn >= 2 {
                                assert(t@[tn as int - 1] != ']');
                            }
                        }
                    }
                    return None;
                }
            } else {
                let mut j: usize = 0;
                while j < tn && t.get_char(j) != '='
                    invariant
                        0 <= j <= tn,
                        tn == t@.len(),
                        forall|k: int| 0 <= k < j ==> t@[k] != '=',
                    decreases tn - j,
                {
                    j = j + 1;
                }
                if j == tn {
                    proof {
                        assert(!tv.contains('=')) by {
                            if tv.contains('=') {
                                let k = choose|k: int| 0 <= k < tv.len() && tv[k] == '=';
                            }
                        }
                        assert(line_entry(tv) is None);
                    }
                    return None;
                }
                proof {
                    assert(t@[j as int] == '=');
                    assert(tv.contains('='));
                    lemma_first_index_of(tv, '=');
                    let fi = first_index_of(tv, '=');
                    if fi < j as int {
                        assert(tv[fi] == '=');
                        assert(false);
                    }
                    if fi > j as int {
                        assert(tv[j as int] != '=');
                        assert(false);
                    }
                    assert(fi == j as int);
                }
                let key = trim_str(t.substring_char(0, j)).to_owned();
                let value = trim_str(t.substring_char(j + 1, tn)).to_owned();
                proof {
                    assert(tv.take(j as int) =~= tv.subrange(0, j as int));
                    assert(tv.skip(j as int + 1) =~= tv.subrange(j as int + 1, tn as int));
                    assert(key@ == spec_trim(tv.take(first_index_of(tv, '='))));
                    assert(value@ == spec_trim(tv.skip(first_index_of(tv, '=') + 1)));
                }
                if key.unicode_len() == 0 {
                    proof {
                        assert(line_entry(tv) is None);
                    }
                    return None;
                }
                if doc.sections.len() == 0 {
                    proof {
                        assert(doc@.len() == 0);
                        assert(line_entry(tv) == Some((key@, value@)));
                    }
                    return None;
                }
                let ghost acc0 = doc@;
                let mut sec = doc.sections.pop().unwrap();
                let ghost sec_entries0 = sec@.entries;
                sec.entries.push((key, value));
                proof {
                    assert(sec@.entries =~= sec_entries0.push((key@, value@)));
                    assert(sec@.name == acc0.last().name);
                    assert(sec_entries0 == acc0.last().entries);
                    assert(doc@ =~= acc0.drop_last());
                }
                let ghost popped = doc@;
                doc.sections.push(sec);
                proof {
                    assert(doc@ =~= popped.push(sec@));
                    assert(doc@ =~= acc0.drop_last().push(
                        IniSectionView {
                            name: acc0.last().name,
                            entries: acc0.last().entries.push((key@, value@)),
                        },
                    ));
                }
            }
        }
        i = i + 1;
    }
    proof {
        assert(line_views.skip(m as int) =~= Seq::<Seq<char>>::empty());
    }
    Some(doc)
}

/// A well-formed key, as the parser itself produces: non-empty, trimmed,
/// free of newlines and `=`, and not starting like a comment or a section
/// header.
pub open spec fn wf_key(k: Seq<char>) -> bool {
    &&& k.len() > 0
    &&& is_trimmed(k)
    &&& newline_free(k)
    &&& (forall|i: int| 0 <= i < k.len() ==> (#[trigger] k[i]) != '=')
    &&& k.first() != '['
    &&& k.first() != ';'
    &&& k.first() != '#'
}

/// A well-formed value: trimmed and free of newlines.
pub open spec fn wf_value(v: Seq<char>) -> bool {
    is_trimmed(v) && newline_free(v)
}

/// A well-formed entry.
pub open spec fn wf_entry(e: (Seq<char>, Seq<char>)) -> bool {
    wf_key(e.0) && wf_value(e.1)
}

/// A well-formed section: a trimmed, newline-free name and well-formed
/// entries.
pub open spec fn wf_section(sec: IniSectionView) -> bool {
    &&& is_trimmed(sec.name)
    &&& newline_free(sec.name)
    &&& (forall|i: int| 0 <= i < sec.entries.len() ==> wf_entry(#[trigger] sec.entries[i]))
}

/// A well-formed document: what parsing yields, and what serialization
/// faithfully round-trips.
pub open spec fn wf_doc(secs: Seq<IniSectionView>) -> bool {
    forall|i: int| 0 <= i < secs.len() ==> wf_section(#[trigger] secs[i])
}

/// Every character of a trimmed sequence is a character of the input, at the
/// offset of the leading separators.
proof fn lemma_trim_chars(s: Seq<char>)
    ensures
        spec_trim(s).len() <= s.len(),
        forall|i: int|
            0 <= i < spec_trim(s).len() ==> #[trigger] spec_trim(s)[i] == s[leading_spaces(s)
                + i],
{
    lemma_leading_spaces(s);
    let t = s.skip(leading_spaces(s));
    lemma_trailing_spaces(t);
}

/// What parsing yields is well-formed.
proof fn lemma_parse_ini_lines_wf(lines: Seq<Seq<char>>, acc: Seq<IniSectionView>)
    requires
        forall|i: int| 0 <= i < lines.len() ==> newline_free(#[trigger] lines[i]),
        wf_doc(acc),
    ensures
        spec_parse_ini_lines(lines, acc) matches Some(d) ==> wf_doc(d),
    decreases lines.len(),
{
    if lines.len() > 0 {
        let line = lines.first();
        assert(newline_free(line));
        let t = spec_trim(line);
        lemma_trim_trimmed(line);
        let rest = lines.drop_first();
        assert forall|i: int| 0 <= i < rest.len() implies newline_free(#[trigger] rest[i]) by {
            assert(rest[i] == lines[i + 1]);
        }
        if t.len() == 0 || line_is_comment(t) {
            lemma_parse_ini_lines_wf(rest, acc);
        } else if t.first() == '[' {
            if line_is_section(t) {
                let interior = t.subrange(1, t.len() - 1);
                assert(newline_free(interior)) by {
                    assert forall|i: int| 0 <= i < interior.len() implies (#[trigger] interior[i])
                        != '\n' by {
                        assert(interior[i] == t[i + 1]);
                    }
                }
                lemma_trim_trimmed(interior);
                let sec = IniSectionView { name: section_name_of(t), entries: Seq::empty() };
                assert(wf_section(sec));
                let acc2 = acc.push(sec);
                assert forall|i: int| 0 <= i < acc2.len() implies wf_section(
                    #[trigger] acc2[i],
                ) by {
                    if i < acc.len() {
                        assert(acc2[i] == acc[i]);
                    }
                }
                lemma_parse_ini_lines_wf(rest, acc2);
            }
        } else {
            match line_entry(t) {
                Some(e) => if acc.len() > 0 {
                    lemma_first_index_of(t, '=');
                    let fi = first_index_of(t, '=');
                    let u = t.take(fi);
                    let w = t.skip(fi + 1);
                    let k = spec_trim(u);
                    let v = spec_trim(w);
                    assert(newline_free(u)) by {
                        assert forall|i: int| 0 <= i < u.len() implies (#[trigger] u[i])
                            != '\n' by {
                            assert(u[i] == t[i]);
                        }
                    }
                    assert(newline_free(w)) by {
                        assert forall|i: int| 0 <= i < w.len() implies (#[trigger] w[i])
                            != '\n' by {
                            assert(w[i] == t[fi + 1 + i]);
                        }
                    }
                    lemma_trim_trimmed(u);
                    lemma_trim_trimmed(w);
                    assert(wf_key(k)) by {
                        lemma_trim_chars(u);
                        assert forall|i: int| 0 <= i < k.len() implies (#[trigger] k[i])
                            != '=' by {
                            assert(k[i] == u[leading_spaces(u) + i]);
                            assert(u[leading_spaces(u) + i] == t[leading_spaces(u) + i]);
                        }
                        // The key starts where the trimmed line starts.
                        assert(fi >= 1) by {
                            if fi == 0 {
                                assert(u =~= Seq::<char>::empty());
                                lemma_trim_noop(u);
                            }
                        }
                        assert(u.first() == t.first());
                        assert(!is_space(t.first()));
                        lemma_leading_spaces(u);
                        assert(leading_spaces(u) == 0) by {
                            if leading_spaces(u) > 0 {
                                assert(is_space(u[0]));
                            }
                        }
                        lemma_trim_chars(u);
                        assert(k[0] == u[0]);
                    }
                    let last0 = acc.last();
                    let updated = IniSectionView { name: last0.name, entries: last0.entries.push(e) };
                    assert(wf_section(updated)) by {
                        assert(wf_section(acc[acc.len() - 1]));
                        assert forall|i: int| 0 <= i < updated.entries.len() implies wf_entry(
                            #[trigger] updated.entries[i],
                        ) by {
                            if i < last0.entries.len() {
                                assert(updated.entries[i] == last0.entries[i]);
                            } else {
                                assert(updated.entries[i] == (k, v));
                            }
                        }
                    }
                    let acc2 = acc.drop_last().push(updated);
                    assert forall|i: int| 0 <= i < acc2.len() implies wf_section(
                        #[trigger] acc2[i],
                    ) by {
                        if i < acc.len() - 1 {
                            assert(acc2[i] == acc[i]);
                        }
                    }
                    lemma_parse_ini_lines_wf(rest, acc2);
                },
                None => {},
            }
        }
    }
}

/// Whatever text parsing accepts, it yields a well-formed document.
pub proof fn lemma_parse_ini_wf(s: Seq<char>)
    ensures
        spec_parse_ini(s) matches Some(d) ==> wf_doc(d),
{
    lemma_lines_newline_free(s);
    lemma_parse_ini_lines_wf(spec_lines(s), Seq::empty());
}

/// The value of `key` among a section's entries: the last assignment wins.
pub open spec fn spec_section_get(
    entries: Seq<(Seq<char>, Seq<char>)>,
    key: Seq<char>,
) -> Option<Seq<char>>
    decreases entries.len(),
{
    if entries.len() == 0 {
        None
    } else if entries.last().0 == key {
        Some(entries.last().1)
    } else {
        spec_section_get(entries.drop_last(), key)
    }
}

/// The value of `key` under `section`: a later section of the same name and
/// a later assignment override earlier ones.
pub open spec fn spec_ini_get(
    secs: Seq<IniSectionView>,
    section: Seq<char>,
    key: Seq<char>,
) -> Option<Seq<char>>
    decreases secs.len(),
{
    if secs.len() == 0 {
        None
    } else if secs.last().name == section {
        match spec_section_get(secs.last().entries, key) {
            Some(v) => Some(v),
            None => spec_ini_get(secs.drop_last(), section, key),
        }
    } else {
        spec_ini_get(secs.drop_last(), section, key)
    }
}

/// Whether any entry carries `key`.
pub open spec fn section_has_key(entries: Seq<(Seq<char>, Seq<char>)>, key: Seq<char>) -> bool {
    exists|i: int| 0 <= i < entries.len() && (#[trigger] entries[i]).0 == key
}

/// The entries with the last assignment of `key` replaced by `value`
/// (meaningful only when the key is present).
pub open spec fn spec_section_replace(
    entries: Seq<(Seq<char>, Seq<char>)>,
    key: Seq<char>,
    value: Seq<char>,
) -> Seq<(Seq<char>, Seq<char>)>
    decreases entries.len(),
{
    if entries.len() == 0 {
        seq![(key, value)]
    } else if entries.last().0 == key {
        entries.drop_last().push((key, value))
    } else {
        spec_section_replace(entries.drop_last(), key, value).push(entries.last())
    }
}

/// The entries with `key` set to `value`: the last assignment of `key` is
/// replaced in place, or the entry is appended at the end when the key is
/// absent.
pub open spec fn spec_section_set(
    entries: Seq<(Seq<char>, Seq<char>)>,
    key: Seq<char>,
    value: Seq<char>,
) -> Seq<(Seq<char>, Seq<char>)> {
    if section_has_key(entries, key) {
        spec_section_replace(entries, key, value)
    } else {
        entries.push((key, value))
    }
}

/// Whether any section carries `name`.
pub open spec fn has_section(secs: Seq<IniSectionView>, name: Seq<char>) -> bool {
    exists|i: int| 0 <= i < secs.len() && (#[trigger] secs[i]).name == name
}

/// The sections with the last section named `section` updated (meaningful
/// only when such a section is present).
pub open spec fn spec_ini_replace(
    secs: Seq<IniSectionView>,
    section: Seq<char>,
    key: Seq<char>,
    value: Seq<char>,
) -> Seq<IniSectionView>
    decreases secs.len(),
{
    if secs.len() == 0 {
        seq![IniSectionView { name: section, entries: seq![(key, value)] }]
    } else if secs.last().name == section {
        secs.drop_last().push(
            IniSectionView {
                name: secs.last().name,
                entries: spec_section_set(secs.last().entries, key, value),
            },
        )
    } else {
        spec_ini_replace(secs.drop_last(), section, key, value).push(secs.last())
    }
}

/// The sections with `key` set to `value` under `section`: the last section
/// of that name is updated in place, or a new section is appended at the end
/// when none exists.
pub open spec fn spec_ini_set(
    secs: Seq<IniSectionView>,
    section: Seq<char>,
    key: Seq<char>,
    value: Seq<char>,
) -> Seq<IniSectionView> {
    if has_section(secs, section) {
        spec_ini_replace(secs, section, key, value)
    } else {
        secs.push(IniSectionView { name: section, entries: seq![(key, value)] })
    }
}

/// Replacing yields the value just written.
proof fn lemma_section_get_after_replace(
    entries: Seq<(Seq<char>, Seq<char>)>,
    key: Seq<char>,
    value: Seq<char>,
)
    ensures
        spec_section_get(spec_section_replace(entries, key, value), key) == Some(value),
    decreases entries.len(),
{
    if entries.len() == 0 {
        assert(spec_section_replace(entries, key, value).last() == (key, value));
    } else if entries.last().0 == key {
        assert(spec_section_replace(entries, key, value).last() == (key, value));
    } else {
        lemma_section_get_after_replace(entries.drop_last(), key, value);
        let inner = spec_section_replace(entries.drop_last(), key, value);
        assert(spec_section_replace(entries, key, value) == inner.push(entries.last()));
        assert(inner.push(entries.last()).drop_last() =~= inner);
    }
}

/// Law: reading a key back after setting it yields the value just set.
pub proof fn lemma_section_get_after_set(
    entries: Seq<(Seq<char>, Seq<char>)>,
    key: Seq<char>,
    value: Seq<char>,
)
    ensures
        spec_section_get(spec_section_set(entries, key, value), key) == Some(value),
{
    if section_has_key(entries, key) {
        lemma_section_get_after_replace(entries, key, value);
    } else {
        assert(spec_section_set(entries, key, value).last() == (key, value));
    }
}

/// Updating the last section of the name yields the value just written.
proof fn lemma_ini_get_after_replace(
    secs: Seq<IniSectionView>,
    section: Seq<char>,
    key: Seq<char>,
    value: Seq<char>,
)
    ensures
        spec_ini_get(spec_ini_replace(secs, section, key, value), section, key) == Some(value),
    decreases secs.len(),
{
    if secs.len() == 0 {
        let out = spec_ini_replace(secs, section, key, value);
        assert(out.last() == IniSectionView { name: section, entries: seq![(key, value)] });
        assert(spec_section_get(out.last().entries, key) == Some(value)) by {
            assert(out.last().entries.last() == (key, value));
        }
    } else if secs.last().name == section {
        let out = spec_ini_replace(secs, section, key, value);
        assert(out.last() == IniSectionView {
            name: secs.last().name,
            entries: spec_section_set(secs.last().entries, key, value),
        });
        lemma_section_get_after_set(secs.last().entries, key, value);
    } else {
        lemma_ini_get_after_replace(secs.drop_last(), section, key, value);
        let inner = spec_ini_replace(secs.drop_last(), section, key, value);
        assert(spec_ini_replace(secs, section, key, value) == inner.push(secs.last()));
        assert(inner.push(secs.last()).drop_last() =~= inner);
    }
}

/// Law: reading a setting back after writing it yields the value just
/// written, whatever the document held before.
pub proof fn lemma_ini_get_after_set(
    secs: Seq<IniSectionView>,
    section: Seq<char>,
    key: Seq<char>,
    value: Seq<char>,
)
    ensures
        spec_ini_get(spec_ini_set(secs, section, key, value), section, key) == Some(value),
{
    if has_section(secs, section) {
        lemma_ini_get_after_replace(secs, section, key, value);
    } else {
        let out = spec_ini_set(secs, section, key, value);
        assert(out.last() == IniSectionView { name: section, entries: seq![(key, value)] });
        assert(spec_section_get(out.last().entries, key) == Some(value)) by {
            assert(out.last().entries.last() == (key, value));
        }
    }
}

/// Replacing an assignment keeps a section's entries well-formed.
proof fn lemma_section_replace_wf(
    entries: Seq<(Seq<char>, Seq<char>)>,
    key: Seq<char>,
    value: Seq<char>,
)
    requires
        forall|i: int| 0 <= i < entries.len() ==> wf_entry(#[trigger] entries[i]),
        wf_entry((key, value)),
    ensures
        forall|i: int|
            0 <= i < spec_section_replace(entries, key, value).len() ==> wf_entry(
                #[trigger] spec_section_replace(entries, key, value)[i],
            ),
    decreases entries.len(),
{
    let out = spec_section_replace(entries, key, value);
    if entries.len() == 0 {
        assert forall|i: int| 0 <= i < out.len() implies wf_entry(#[trigger] out[i]) by {
            assert(out[i] == (key, value));
        }
    } else if entries.last().0 == key {
        assert forall|i: int| 0 <= i < out.len() implies wf_entry(#[trigger] out[i]) by {
            if i < entries.len() - 1 {
                assert(out[i] == entries[i]);
            } else {
                assert(out[i] == (key, value));
            }
        }
    } else {
        let s0 = entries.drop_last();
        assert forall|i: int| 0 <= i < s0.len() implies wf_entry(#[trigger] s0[i]) by {
            assert(s0[i] == entries[i]);
        }
        lemma_section_replace_wf(s0, key, value);
        let inner = spec_section_replace(s0, key, value);
        assert forall|i: int| 0 <= i < out.len() implies wf_entry(#[trigger] out[i]) by {
            if i < inner.len() {
                assert(out[i] == inner[i]);
            } else {
                assert(out[i] == entries[entries.len() - 1]);
            }
        }
    }
}

/// Setting a well-formed key and value keeps a document well-formed.
pub proof fn lemma_ini_set_wf(
    secs: Seq<IniSectionView>,
    section: Seq<char>,
    key: Seq<char>,
    value: Seq<char>,
)
    requires
        wf_doc(secs),
        is_trimmed(section),
        newline_free(section),
        wf_entry((key, value)),
    ensures
        wf_doc(spec_ini_set(secs, section, key, value)),
{
    if has_section(secs, section) {
        lemma_ini_replace_wf(secs, section, key, value);
    } else {
        let out = spec_ini_set(secs, section, key, value);
        let sec = IniSectionView { name: section, entries: seq![(key, value)] };
        assert(wf_section(sec)) by {
            assert(sec.entries[0] == (key, value));
        }
        assert forall|i: int| 0 <= i < out.len() implies wf_section(#[trigger] out[i]) by {
            if i < secs.len() {
                assert(out[i] == secs[i]);
            } else {
                assert(out[i] == sec);
            }
        }
    }
}

/// Updating a section keeps a document well-formed.
proof fn lemma_ini_replace_wf(
    secs: Seq<IniSectionView>,
    section: Seq<char>,
    key: Seq<char>,
    value: Seq<char>,
)
    requires
        wf_doc(secs),
        is_trimmed(section),
        newline_free(section),
        wf_entry((key, value)),
    ensures
        wf_doc(spec_ini_replace(secs, section, key, value)),
    decreases secs.len(),
{
    let out = spec_ini_replace(secs, section, key, value);
    if secs.len() == 0 {
        let sec = IniSectionView { name: section, entries: seq![(key, value)] };
        assert(wf_section(sec)) by {
            assert(sec.entries[0] == (key, value));
        }
        assert forall|i: int| 0 <= i < out.len() implies wf_section(#[trigger] out[i]) by {
            assert(out[i] == sec);
        }
    } else if secs.last().name == section {
        let last0 = secs.last();
        assert(wf_section(secs[secs.len() - 1]));
        let updated_entries = spec_section_set(last0.entries, key, value);
        assert(forall|i: int|
            0 <= i < updated_entries.len() ==> wf_entry(#[trigger] updated_entries[i])) by {
            if section_has_key(last0.entries, key) {
                lemma_section_replace_wf(last0.entries, key, value);
            } else {
                assert forall|i: int| 0 <= i < updated_entries.len() implies wf_entry(
                    #[trigger] updated_entries[i],
                ) by {
                    if i < last0.entries.len() {
                        assert(updated_entries[i] == last0.entries[i]);
                    } else {
                        assert(updated_entries[i] == (key, value));
                    }
                }
            }
        }
        let updated = IniSectionView { name: last0.name, entries: updated_entries };
        assert(wf_section(updated));
        assert forall|i: int| 0 <= i < out.len() implies wf_section(#[trigger] out[i]) by {
            if i < secs.len() - 1 {
                assert(out[i] == secs[i]);
            } else {
                assert(out[i] == updated);
            }
        }
    } else {
        let s0 = secs.drop_last();
        assert forall|i: int| 0 <= i < s0.len() implies wf_section(#[trigger] s0[i]) by {
            assert(s0[i] == secs[i]);
        }
        lemma_ini_replace_wf(s0, section, key, value);
        let inner = spec_ini_replace(s0, section, key, value);
        assert forall|i: int| 0 <= i < out.len() implies wf_section(#[trigger] out[i]) by {
            if i < inner.len() {
                assert(out[i] == inner[i]);
            } else {
                assert(out[i] == secs[secs.len() - 1]);
            }
        }
    }
}

/// Replacing within a concatenation whose tail lacks the key happens in the
/// head: the tail passes through unchanged.
proof fn lemma_section_replace_skips_tail(
    prefix: Seq<(Seq<char>, Seq<char>)>,
    tail: Seq<(Seq<char>, Seq<char>)>,
    key: Seq<char>,
    value: Seq<char>,
)
    requires
        prefix.len() > 0,
        prefix.last().0 == key,
        forall|j: int| 0 <= j < tail.len() ==> (#[trigger] tail[j]).0 != key,
    ensures
        spec_section_replace(prefix + tail, key, value) == prefix.drop_last().push((key, value))
            + tail,
    decreases tail.len(),
{
    if tail.len() == 0 {
        assert(prefix + tail =~= prefix);
        assert(prefix.drop_last().push((key, value)) + tail =~= prefix.drop_last().push(
            (key, value),
        ));
    } else {
        let t0 = tail.drop_last();
        assert((prefix + tail).last() == tail[tail.len() - 1]);
        assert((prefix + tail).last().0 != key);
        assert((prefix + tail).drop_last() =~= prefix + t0);
        assert forall|j: int| 0 <= j < t0.len() implies (#[trigger] t0[j]).0 != key by {
            assert(t0[j] == tail[j]);
        }
        lemma_section_replace_skips_tail(prefix, t0, key, value);
        assert((prefix.drop_last().push((key, value)) + t0).push(tail.last())
            =~= prefix.drop_last().push((key, value)) + tail);
    }
}

/// Updating a section within a concatenation whose tail lacks the name
/// happens in the head: the tail passes through unchanged.
proof fn lemma_ini_replace_skips_tail(
    prefix: Seq<IniSectionView>,
    tail: Seq<IniSectionView>,
    section: Seq<char>,
    key: Seq<char>,
    value: Seq<char>,
)
    requires
        prefix.len() > 0,
        prefix.last().name == section,
        forall|j: int| 0 <= j < tail.len() ==> (#[trigger] tail[j]).name != section,
    ensures
        spec_ini_replace(prefix + tail, section, key, value) == prefix.drop_last().push(
            IniSectionView {
                name: prefix.last().name,
                entries: spec_section_set(prefix.last().entries, key, value),
            },
        ) + tail,
    decreases tail.len(),
{
    let updated = IniSectionView {
        name: prefix.last().name,
        entries: spec_section_set(prefix.last().entries, key, value),
    };
    if tail.len() == 0 {
        assert(prefix + tail =~= prefix);
        assert(prefix.drop_last().push(updated) + tail =~= prefix.drop_last().push(updated));
    } else {
        let t0 = tail.drop_last();
        assert((prefix + tail).last() == tail[tail.len() - 1]);
        assert((prefix + tail).last().name != section);
        assert((prefix + tail).drop_last() =~= prefix + t0);
        assert forall|j: int| 0 <= j < t0.len() implies (#[trigger] t0[j]).name != section by {
            assert(t0[j] == tail[j]);
        }
        lemma_ini_replace_skips_tail(prefix, t0, section, key, value);
        assert((prefix.drop_last().push(updated) + t0).push(tail.last())
            =~= prefix.drop_last().push(updated) + tail);
    }
}

/// Reads the last assignment of `key` among a section's entries.
fn section_get(entries: &Vec<(String, String)>, key: &String) -> (r: Option<String>)
    ensures
        match r {
            Some(v) => spec_section_get(
                entries@.map_values(|e: (String, String)| (e.0@, e.1@)),
                key@,
            ) == Some(v@),
            None => spec_section_get(
                entries@.map_values(|e: (String, String)| (e.0@, e.1@)),
                key@,
            ) is None,
        },
{
    let ghost ev = entries@.map_values(|e: (String, String)| (e.0@, e.1@));
    let mut i: usize = entries.len();
    proof {
        assert(ev.take(entries@.len() as int) =~= ev);
    }
    while i > 0
        invariant
            0 <= i <= entries@.len(),
            ev == entries@.map_values(|e: (String, String)| (e.0@, e.1@)),
            spec_section_get(ev, key@) == spec_section_get(ev.take(i as int), key@),
        decreases i,
    {
        i = i - 1;
        proof {
            assert(ev.take(i as int + 1).drop_last() =~= ev.take(i as int));
            assert(ev.take(i as int + 1).last() == ev[i as int]);
            assert(ev[i as int] == (entries@[i as int].0@, entries@[i as int].1@));
        }
        if entries[i].0 == *key {
            return Some(entries[i].1.clone());
        }
    }
    proof {
        assert(ev.take(0) =~= Seq::<(Seq<char>, Seq<char>)>::empty());
    }
    None
}

impl IniDoc {
    /// Reads the value of `key` under `section`, the last assignment
    /// winning, or nothing when the document does not hold the setting.
    pub fn get(&self, section: &str, key: &str) -> (r: Option<String>)
        ensures
            match r {
                Some(v) => spec_ini_get(self@, section@, key@) == Some(v@),
                None => spec_ini_get(self@, section@, key@) is None,
            },
    {
        let sname = String::from_str(section);
        let kname = String::from_str(key);
        let mut i: usize = self.sections.len();
        proof {
            assert(self@.take(self.sections@.len() as int) =~= self@);
        }
        while i > 0
            invariant
                0 <= i <= self.sections@.len(),
                self@.len() == self.sections@.len(),
                sname@ == section@,
                kname@ == key@,
                spec_ini_get(self@, section@, key@) == spec_ini_get(
                    self@.take(i as int),
                    section@,
                    key@,
                ),
            decreases i,
        {
            i = i - 1;
            proof {
                assert(self@.take(i as int + 1).drop_last() =~= self@.take(i as int));
                assert(self@.take(i as int + 1).last() == self@[i as int]);
                assert(self@[i as int] == self.sections@[i as int]@);
            }
            if self.sections[i].name == sname {
                match section_get(&self.sections[i].entries, &kname) {
                    Some(v) => {
                        return Some(v);
                    },
                    None => {},
                }
            }
        }
        proof {
            assert(self@.take(0) =~= Seq::<IniSectionView>::empty());
        }
        None
    }
}

/// Sets `key` to `value` among a section's entries, replacing the last
/// assignment in place or appending the entry at the end.
fn section_set(entries: &mut Vec<(String, String)>, key: &str, value: &str)
    ensures
        final(entries)@.map_values(|e: (String, String)| (e.0@, e.1@)) == spec_section_set(
            old(entries)@.map_values(|e: (String, String)| (e.0@, e.1@)),
            key@,
            value@,
        ),
{
    let ghost base = old(entries)@.map_values(|e: (String, String)| (e.0@, e.1@));
    let kname = String::from_str(key);
    let mut tail: Vec<(String, String)> = Vec::new();
    proof {
        assert(tail@.map_values(|e: (String, String)| (e.0@, e.1@)).reverse()
            =~= Seq::<(Seq<char>, Seq<char>)>::empty());
        assert(entries@.map_values(|e: (String, String)| (e.0@, e.1@)) + tail@.map_values(
            |e: (String, String)| (e.0@, e.1@),
        ).reverse() =~= base);
    }
    let mut found = false;
    while !found && entries.len() > 0
        invariant
            kname@ == key@,
            forall|j: int| 0 <= j < tail@.len() ==> (#[trigger] tail@[j]).0@ != key@,
            !found ==> base == entries@.map_values(|e: (String, String)| (e.0@, e.1@))
                + tail@.map_values(|e: (String, String)| (e.0@, e.1@)).reverse(),
            found ==> spec_section_set(base, key@, value@) == entries@.map_values(
                |e: (String, String)| (e.0@, e.1@),
            ) + tail@.map_values(|e: (String, String)| (e.0@, e.1@)).reverse(),
        decreases entries@.len(), (if found { 0int } else { 1int }),
    {
        let ghost ev = entries@.map_values(|e: (String, String)| (e.0@, e.1@));
        let ghost tv = tail@.map_values(|e: (String, String)| (e.0@, e.1@));
        let e = entries.pop().unwrap();
        proof {
            assert(entries@.map_values(|e: (String, String)| (e.0@, e.1@)) =~= ev.drop_last());
            assert((e.0@, e.1@) == ev.last());
        }
        if e.0 == kname {
            proof {
                assert(ev.last().0 == key@);
                assert(base[ev.len() - 1] == ev.last());
                assert(section_has_key(base, key@));
                lemma_section_replace_skips_tail(ev, tv.reverse(), key@, value@);
                assert(spec_section_set(base, key@, value@) == ev.drop_last().push((key@, value@))
                    + tv.reverse());
            }
            entries.push((String::from_str(key), String::from_str(value)));
            found = true;
            proof {
                assert(entries@.map_values(|ee: (String, String)| (ee.0@, ee.1@))
                    =~= ev.drop_last().push((key@, value@)));
            }
        } else {
            tail.push(e);
            proof {
                assert(tail@.map_values(|ee: (String, String)| (ee.0@, ee.1@)).reverse()
                    =~= seq![ev.last()] + tv.reverse());
                assert(ev.drop_last() + (seq![ev.last()] + tv.reverse()) =~= ev + tv.reverse());
            }
        }
    }
    proof {
        if !found {
            assert(entries@.map_values(|e: (String, String)| (e.0@, e.1@))
                =~= Seq::<(Seq<char>, Seq<char>)>::empty());
            let tv = tail@.map_values(|e: (String, String)| (e.0@, e.1@));
            assert(Seq::<(Seq<char>, Seq<char>)>::empty() + tv.reverse() =~= tv.reverse());
            assert(base == tv.reverse());
            assert(!section_has_key(base, key@)) by {
                if section_has_key(base, key@) {
                    let i = choose|i: int|
                        0 <= i < base.len() && (#[trigger] base[i]).0 == key@;
                    assert(base[i] == tv[tv.len() - 1 - i]);
                }
            }
        }
    }
    while tail.len() > 0
        invariant
            kname@ == key@,
            !found ==> base == entries@.map_values(|e: (String, String)| (e.0@, e.1@))
                + tail@.map_values(|e: (String, String)| (e.0@, e.1@)).reverse(),
            !found ==> !section_has_key(base, key@),
            found ==> spec_section_set(base, key@, value@) == entries@.map_values(
                |e: (String, String)| (e.0@, e.1@),
            ) + tail@.map_values(|e: (String, String)| (e.0@, e.1@)).reverse(),
        decreases tail@.len(),
    {
        let ghost ev = entries@.map_values(|e: (String, String)| (e.0@, e.1@));
        let ghost tv = tail@.map_values(|e: (String, String)| (e.0@, e.1@));
        let e = tail.pop().unwrap();
        entries.push(e);
        proof {
            assert(entries@.map_values(|ee: (String, String)| (ee.0@, ee.1@)) =~= ev.push(
                tv.last(),
            ));
            assert(tail@.map_values(|ee: (String, String)| (ee.0@, ee.1@)) =~= tv.drop_last());
            assert(ev.push(tv.last()) + tv.drop_last().reverse() =~= ev + tv.reverse());
        }
    }
    proof {
        assert(tail@.map_values(|e: (String, String)| (e.0@, e.1@)).reverse()
            =~= Seq::<(Seq<char>, Seq<char>)>::empty());
        assert(entries@.map_values(|e: (String, String)| (e.0@, e.1@))
            + Seq::<(Seq<char>, Seq<char>)>::empty() =~= entries@.map_values(
            |e: (String, String)| (e.0@, e.1@),
        ));
    }
    if !found {
        let ghost ev = entries@.map_values(|e: (String, String)| (e.0@, e.1@));
        entries.push((String::from_str(key), String::from_str(value)));
        proof {
            assert(ev == base);
            assert(entries@.map_values(|e: (String, String)| (e.0@, e.1@)) =~= base.push(
                (key@, value@),
            ));
        }
    }
}

impl IniDoc {
    /// Sets `key` to `value` under `section`, updating the last section of
    /// that name in place or appending a new one at the end.
    pub fn set(&mut self, section: &str, key: &str, value: &str)
        ensures
            final(self)@ == spec_ini_set(old(self)@, section@, key@, value@),
    {
        let ghost base = old(self)@;
        let sname = String::from_str(section);
        let mut tail: Vec<IniSection> = Vec::new();
        proof {
            assert(tail@.map_values(|s: IniSection| s@).reverse()
                =~= Seq::<IniSectionView>::empty());
            assert(self@ + tail@.map_values(|s: IniSection| s@).reverse() =~= base);
        }
        let mut found = false;
        while !found && self.sections.len() > 0
            invariant
                sname@ == section@,
                forall|j: int| 0 <= j < tail@.len() ==> (#[trigger] tail@[j])@.name != section@,
                !found ==> base == self@ + tail@.map_values(|s: IniSection| s@).reverse(),
                found ==> spec_ini_set(base, section@, key@, value@) == self@ + tail@.map_values(
                    |s: IniSection| s@,
                ).reverse(),
            decreases self.sections@.len(), (if found { 0int } else { 1int }),
        {
            let ghost sv = self@;
            let ghost tv = tail@.map_values(|s: IniSection| s@);
            let mut sec = self.sections.pop().unwrap();
            proof {
                assert(self@ =~= sv.drop_last());
                assert(sec@ == sv.last());
            }
            if sec.name == sname {
                proof {
                    assert(sv.last().name == section@);
                    assert(base[sv.len() - 1] == sv.last());
                    assert(has_section(base, section@));
                    assert forall|j: int| 0 <= j < tv.reverse().len() implies (#[trigger] tv
                        .reverse()[j]).name != section@ by {
                        assert(tv.reverse()[j] == tv[tv.len() - 1 - j]);
                        assert(tv[tv.len() - 1 - j] == tail@[tv.len() - 1 - j]@);
                    }
                    lemma_ini_replace_skips_tail(sv, tv.reverse(), section@, key@, value@);
                }
                section_set(&mut sec.entries, key, value);
                proof {
                    assert(sec@ == IniSectionView {
                        name: sv.last().name,
                        entries: spec_section_set(sv.last().entries, key@, value@),
                    });
                }
                let ghost popped = self@;
                self.sections.push(sec);
                found = true;
                proof {
                    assert(self@ =~= popped.push(
                        IniSectionView {
                            name: sv.last().name,
                            entries: spec_section_set(sv.last().entries, key@, value@),
                        },
                    ));
                    assert(spec_ini_set(base, section@, key@, value@) == sv.drop_last().push(
                        IniSectionView {
                            name: sv.last().name,
                            entries: spec_section_set(sv.last().entries, key@, value@),
                        },
                    ) + tv.reverse());
                }
            } else {
                tail.push(sec);
                proof {
                    assert(tail@.map_values(|s: IniSection| s@).reverse() =~= seq![sv.last()]
                        + tv.reverse());
                    assert(sv.drop_last() + (seq![sv.last()] + tv.reverse()) =~= sv
                        + tv.reverse());
                }
            }
        }
        proof {
            if !found {
                assert(self@ =~= Seq::<IniSectionView>::empty());
                let tv = tail@.map_values(|s: IniSection| s@);
                assert(Seq::<IniSectionView>::empty() + tv.reverse() =~= tv.reverse());
                assert(base == tv.reverse());
                assert(!has_section(base, section@)) by {
                    if has_section(base, section@) {
                        let i = choose|i: int|
                            0 <= i < base.len() && (#[trigger] base[i]).name == section@;
                        assert(base[i] == tv[tv.len() - 1 - i]);
                        assert(tv[tv.len() - 1 - i] == tail@[tv.len() - 1 - i]@);
                    }
                }
            }
        }
        while tail.len() > 0
            invariant
                sname@ == section@,
                !found ==> base == self@ + tail@.map_values(|s: IniSection| s@).reverse(),
                !found ==> !has_section(base, section@),
                found ==> spec_ini_set(base, section@, key@, value@) == self@ + tail@.map_values(
                    |s: IniSection| s@,
                ).reverse(),
            decreases tail@.len(),
        {
            let ghost sv = self@;
            let ghost tv = tail@.map_values(|s: IniSection| s@);
            let sec = tail.pop().unwrap();
            self.sections.push(sec);
            proof {
                assert(self@ =~= sv.push(tv.last()));
                assert(tail@.map_values(|s: IniSection| s@) =~= tv.drop_last());
                assert(sv.push(tv.last()) + tv.drop_last().reverse() =~= sv + tv.reverse());
            }
        }
        proof {
            assert(tail@.map_values(|s: IniSection| s@).reverse()
                =~= Seq::<IniSectionView>::empty());
            assert(self@ + Seq::<IniSectionView>::empty() =~= self@);
        }
        if !found {
            let ghost sv = self@;
            let mut entries: Vec<(String, String)> = Vec::new();
            entries.push((String::from_str(key), String::from_str(value)));
            self.sections.push(IniSection { name: String::from_str(section), entries });
            proof {
                let sec = IniSectionView { name: section@, entries: seq![(key@, value@)] };
                assert(sv == base);
                assert(self@ =~= sv.push(self.sections@.last()@));
                assert(self.sections@.last()@.entries =~= seq![(key@, value@)]);
                assert(self.sections@.last()@ =~= sec);
                assert(self@ =~= base.push(sec));
            }
        }
    }
}

/// The serialized text of a section's entries, one `key=value` line each.
pub open spec fn spec_entries_text(entries: Seq<(Seq<char>, Seq<char>)>) -> Seq<char>
    decreases entries.len(),
{
    if entries.len() == 0 {
        Seq::empty()
    } else {
        spec_entries_text(entries.drop_last()) + entries.last().0 + seq!['='] + entries.last().1
            + seq!['\n']
    }
}

/// The serialized text of one section: its header line and its entries.
pub open spec fn spec_section_text(sec: IniSectionView) -> Seq<char> {
    seq!['['] + sec.name + seq![']'] + seq!['\n'] + spec_entries_text(sec.entries)
}

/// The serialized text of a whole document: its sections in order.
pub open spec fn spec_ini_text(secs: Seq<IniSectionView>) -> Seq<char>
    decreases secs.len(),
{
    if secs.len() == 0 {
        Seq::empty()
    } else {
        spec_ini_text(secs.drop_last()) + spec_section_text(secs.last())
    }
}

/// The content of one serialized entry line, without its newline.
pub open spec fn entry_content(e: (Seq<char>, Seq<char>)) -> Seq<char> {
    e.0 + seq!['='] + e.1
}

/// The content of one serialized section header line, without its newline.
pub open spec fn header_content(name: Seq<char>) -> Seq<char> {
    seq!['['] + name + seq![']']
}

/// The serialized lines of a section's entries.
pub open spec fn entry_lines(entries: Seq<(Seq<char>, Seq<char>)>) -> Seq<Seq<char>>
    decreases entries.len(),
{
    if entries.len() == 0 {
        Seq::empty()
    } else {
        entry_lines(entries.drop_last()).push(entry_content(entries.last()))
    }
}

/// The serialized lines of one section.
pub open spec fn section_lines(sec: IniSectionView) -> Seq<Seq<char>> {
    seq![header_content(sec.name)] + entry_lines(sec.entries)
}

/// The serialized lines of a whole document.
pub open spec fn doc_lines(secs: Seq<IniSectionView>) -> Seq<Seq<char>>
    decreases secs.len(),
{
    if secs.len() == 0 {
        Seq::empty()
    } else {
        doc_lines(secs.drop_last()) + section_lines(secs.last())
    }
}

/// Serialized entries end with a newline when non-empty.
proof fn lemma_entries_text_shape(entries: Seq<(Seq<char>, Seq<char>)>)
    ensures
        spec_entries_text(entries).len() > 0 ==> spec_entries_text(entries).last() == '\n',
        entries.len() > 0 ==> spec_entries_text(entries).len() > 0,
    decreases entries.len(),
{
    if entries.len() > 0 {
        lemma_entries_text_shape(entries.drop_last());
    }
}

/// A serialized section is non-empty and ends with a newline.
proof fn lemma_section_text_shape(sec: IniSectionView)
    ensures
        spec_section_text(sec).len() > 0,
        spec_section_text(sec).last() == '\n',
{
    lemma_entries_text_shape(sec.entries);
}

/// A serialized document of any sections is non-empty and ends with a
/// newline.
proof fn lemma_ini_text_shape(secs: Seq<IniSectionView>)
    ensures
        secs.len() > 0 ==> spec_ini_text(secs).len() > 0 && spec_ini_text(secs).last() == '\n',
    decreases secs.len(),
{
    if secs.len() > 0 {
        lemma_section_text_shape(secs.last());
    }
}

/// The serialized entry content of a well-formed entry has no newline.
proof fn lemma_entry_content_newline_free(e: (Seq<char>, Seq<char>))
    requires
        wf_entry(e),
    ensures
        newline_free(entry_content(e)),
{
    let c = entry_content(e);
    assert forall|i: int| 0 <= i < c.len() implies (#[trigger] c[i]) != '\n' by {
        if i < e.0.len() {
            assert(c[i] == e.0[i]);
        } else if i == e.0.len() {
            assert(c[i] == '=');
        } else {
            assert(c[i] == e.1[i - e.0.len() - 1]);
        }
    }
}

/// The lines of serialized entries are exactly the entry lines.
proof fn lemma_entries_text_lines(entries: Seq<(Seq<char>, Seq<char>)>)
    requires
        forall|i: int| 0 <= i < entries.len() ==> wf_entry(#[trigger] entries[i]),
    ensures
        spec_lines(spec_entries_text(entries)) == entry_lines(entries),
    decreases entries.len(),
{
    if entries.len() == 0 {
    } else {
        let e = entries.last();
        let s0 = entries.drop_last();
        assert(wf_entry(entries[entries.len() - 1]));
        assert forall|i: int| 0 <= i < s0.len() implies wf_entry(#[trigger] s0[i]) by {
            assert(s0[i] == entries[i]);
        }
        lemma_entries_text_lines(s0);
        lemma_entry_content_newline_free(e);
        let a = spec_entries_text(s0);
        let c = entry_content(e);
        assert(spec_entries_text(entries) =~= a + (c + seq!['\n']));
        lemma_lines_single(c);
        if s0.len() == 0 {
            assert(a =~= Seq::<char>::empty());
            assert(a + (c + seq!['\n']) =~= c + seq!['\n']);
            assert(entry_lines(entries) =~= seq![c]);
        } else {
            lemma_entries_text_shape(s0);
            lemma_lines_concat(a, c + seq!['\n']);
            assert(spec_lines(spec_entries_text(entries)) == spec_lines(a) + seq![c]);
            assert(entry_lines(s0) + seq![c] =~= entry_lines(s0).push(c));
        }
    }
}

/// The lines of a serialized section are exactly its header and entry lines.
proof fn lemma_section_text_lines(sec: IniSectionView)
    requires
        wf_section(sec),
    ensures
        spec_lines(spec_section_text(sec)) == section_lines(sec),
{
    let hc = header_content(sec.name);
    let hdr = hc + seq!['\n'];
    let etext = spec_entries_text(sec.entries);
    assert(spec_section_text(sec) =~= hdr + etext);
    assert(newline_free(hc)) by {
        assert forall|i: int| 0 <= i < hc.len() implies (#[trigger] hc[i]) != '\n' by {
            if i == 0 {
                assert(hc[i] == '[');
            } else if i <= sec.name.len() {
                assert(hc[i] == sec.name[i - 1]);
            } else {
                assert(hc[i] == ']');
            }
        }
    }
    lemma_lines_single(hc);
    assert(hdr.last() == '\n');
    lemma_lines_concat(hdr, etext);
    lemma_entries_text_lines(sec.entries);
    assert(spec_lines(spec_section_text(sec)) == seq![hc] + entry_lines(sec.entries));
}

/// The lines of a serialized document are exactly its sections' lines.
proof fn lemma_ini_text_lines(secs: Seq<IniSectionView>)
    requires
        wf_doc(secs),
    ensures
        spec_lines(spec_ini_text(secs)) == doc_lines(secs),
    decreases secs.len(),
{
    if secs.len() > 0 {
        let s0 = secs.drop_last();
        assert(wf_section(secs[secs.len() - 1]));
        assert forall|i: int| 0 <= i < s0.len() implies wf_section(#[trigger] s0[i]) by {
            assert(s0[i] == secs[i]);
        }
        lemma_ini_text_lines(s0);
        lemma_section_text_lines(secs.last());
        let a = spec_ini_text(s0);
        let b = spec_section_text(secs.last());
        if s0.len() == 0 {
            assert(a =~= Seq::<char>::empty());
            assert(a + b =~= b);
            assert(doc_lines(secs) =~= section_lines(secs.last()));
        } else {
            lemma_ini_text_shape(s0);
            lemma_lines_concat(a, b);
        }
    }
}

/// Parsing a concatenation of line lists parses the first list, then the
/// second from the state the first one left.
proof fn lemma_parse_lines_concat(l1: Seq<Seq<char>>, l2: Seq<Seq<char>>, acc: Seq<IniSectionView>)
    ensures
        spec_parse_ini_lines(l1 + l2, acc) == (match spec_parse_ini_lines(l1, acc) {
            Some(acc2) => spec_parse_ini_lines(l2, acc2),
            None => None,
        }),
    decreases l1.len(),
{
    if l1.len() == 0 {
        assert(l1 + l2 =~= l2);
    } else {
        let t = spec_trim(l1.first());
        assert((l1 + l2).first() == l1.first());
        assert((l1 + l2).drop_first() =~= l1.drop_first() + l2);
        if t.len() == 0 || line_is_comment(t) {
            lemma_parse_lines_concat(l1.drop_first(), l2, acc);
        } else if t.first() == '[' {
            if line_is_section(t) {
                lemma_parse_lines_concat(
                    l1.drop_first(),
                    l2,
                    acc.push(
                        IniSectionView { name: section_name_of(t), entries: Seq::empty() },
                    ),
                );
            }
        } else {
            match line_entry(t) {
                Some(e) => {
                    if acc.len() > 0 {
                        lemma_parse_lines_concat(
                            l1.drop_first(),
                            l2,
                            acc.drop_last().push(
                                IniSectionView {
                                    name: acc.last().name,
                                    entries: acc.last().entries.push(e),
                                },
                            ),
                        );
                    }
                },
                None => {},
            }
        }
    }
}

/// A well-formed entry's serialized content classifies back to that entry.
proof fn lemma_entry_content_classified(e: (Seq<char>, Seq<char>))
    requires
        wf_entry(e),
    ensures
        spec_trim(entry_content(e)) == entry_content(e),
        entry_content(e).len() > 0,
        !line_is_comment(entry_content(e)),
        entry_content(e).first() != '[',
        line_entry(entry_content(e)) == Some(e),
{
    let c = entry_content(e);
    assert(c.first() == e.0.first());
    assert(c.last() == (if e.1.len() > 0 {
        e.1.last()
    } else {
        '='
    }));
    assert(is_trimmed(c));
    lemma_trim_noop(c);
    assert(c[e.0.len() as int] == '=');
    assert(c.contains('='));
    lemma_first_index_of(c, '=');
    let fi = first_index_of(c, '=');
    if fi < e.0.len() {
        assert(c[fi] == e.0[fi]);
        assert(false);
    }
    if fi > e.0.len() {
        assert(c[e.0.len() as int] != '=');
        assert(false);
    }
    assert(fi == e.0.len());
    assert(c.take(fi) =~= e.0);
    assert(c.skip(fi + 1) =~= e.1);
    lemma_trim_noop(e.0);
    lemma_trim_noop(e.1);
}

/// A well-formed name's serialized header classifies back to a section of
/// that name.
proof fn lemma_header_content_classified(name: Seq<char>)
    requires
        is_trimmed(name),
        newline_free(name),
    ensures
        spec_trim(header_content(name)) == header_content(name),
        header_content(name).len() >= 2,
        !line_is_comment(header_content(name)),
        header_content(name).first() == '[',
        line_is_section(header_content(name)),
        section_name_of(header_content(name)) == name,
{
    let hc = header_content(name);
    assert(hc.first() == '[');
    assert(hc.last() == ']');
    assert(is_trimmed(hc));
    lemma_trim_noop(hc);
    assert(hc.subrange(1, hc.len() - 1) =~= name);
    lemma_trim_noop(name);
}

/// Parsing the serialized lines of entries appends them to the open section.
proof fn lemma_entries_roundtrip(entries: Seq<(Seq<char>, Seq<char>)>, acc: Seq<IniSectionView>)
    requires
        acc.len() > 0,
        forall|i: int| 0 <= i < entries.len() ==> wf_entry(#[trigger] entries[i]),
    ensures
        spec_parse_ini_lines(entry_lines(entries), acc) == Some(
            acc.drop_last().push(
                IniSectionView {
                    name: acc.last().name,
                    entries: acc.last().entries + entries,
                },
            ),
        ),
    decreases entries.len(),
{
    if entries.len() == 0 {
        assert(acc.last().entries + entries =~= acc.last().entries);
        assert(acc.drop_last().push(
            IniSectionView { name: acc.last().name, entries: acc.last().entries + entries },
        ) =~= acc);
    } else {
        let e = entries.last();
        let e0 = entries.drop_last();
        assert(wf_entry(entries[entries.len() - 1]));
        assert forall|i: int| 0 <= i < e0.len() implies wf_entry(#[trigger] e0[i]) by {
            assert(e0[i] == entries[i]);
        }
        assert(entry_lines(entries) =~= entry_lines(e0) + seq![entry_content(e)]);
        lemma_parse_lines_concat(entry_lines(e0), seq![entry_content(e)], acc);
        lemma_entries_roundtrip(e0, acc);
        let acc1 = acc.drop_last().push(
            IniSectionView { name: acc.last().name, entries: acc.last().entries + e0 },
        );
        // One entry line extends the open section by that entry.
        lemma_entry_content_classified(e);
        let ln = seq![entry_content(e)];
        assert(ln.first() == entry_content(e));
        assert(ln.drop_first() =~= Seq::<Seq<char>>::empty());
        let t = spec_trim(entry_content(e));
        assert(t == entry_content(e));
        assert(acc1.len() > 0);
        let acc2 = acc1.drop_last().push(
            IniSectionView {
                name: acc1.last().name,
                entries: acc1.last().entries.push(e),
            },
        );
        assert(t.len() > 0);
        assert(!(t.len() == 0 || line_is_comment(t)));
        assert(t.first() != '[');
        assert(spec_parse_ini_lines(ln, acc1) == spec_parse_ini_lines(ln.drop_first(), acc2));
        assert(spec_parse_ini_lines(ln.drop_first(), acc2) == Some(acc2));
        assert(acc1.drop_last() =~= acc.drop_last());
        assert((acc.last().entries + e0).push(e) =~= acc.last().entries + entries);
        assert(acc2 =~= acc.drop_last().push(
            IniSectionView { name: acc.last().name, entries: acc.last().entries + entries },
        ));
    }
}

/// Parsing the serialized lines of one well-formed section appends that
/// section.
proof fn lemma_section_roundtrip(sec: IniSectionView, acc: Seq<IniSectionView>)
    requires
        wf_section(sec),
    ensures
        spec_parse_ini_lines(section_lines(sec), acc) == Some(acc.push(sec)),
{
    lemma_header_content_classified(sec.name);
    let hc = header_content(sec.name);
    let hl = seq![hc];
    lemma_parse_lines_concat(hl, entry_lines(sec.entries), acc);
    assert(hl.first() == hc);
    assert(hl.drop_first() =~= Seq::<Seq<char>>::empty());
    let sec0 = IniSectionView { name: sec.name, entries: Seq::empty() };
    let t = spec_trim(hl.first());
    assert(t == hc);
    assert(t.len() > 0);
    assert(!(t.len() == 0 || line_is_comment(t)));
    assert(t.first() == '[');
    assert(line_is_section(t));
    assert(spec_parse_ini_lines(hl, acc) == spec_parse_ini_lines(
        hl.drop_first(),
        acc.push(IniSectionView { name: section_name_of(t), entries: Seq::empty() }),
    ));
    assert(section_name_of(t) == sec.name);
    assert(spec_parse_ini_lines(hl, acc) == Some(acc.push(sec0)));
    lemma_entries_roundtrip(sec.entries, acc.push(sec0));
    assert(acc.push(sec0).drop_last() =~= acc);
    assert(acc.push(sec0).last() == sec0);
    assert(Seq::<(Seq<char>, Seq<char>)>::empty() + sec.entries =~= sec.entries);
    assert(acc.push(
        IniSectionView { name: sec.name, entries: Seq::<(Seq<char>, Seq<char>)>::empty()
            + sec.entries },
    ) =~= acc.push(sec));
}

/// Parsing the serialized lines of a well-formed document appends all its
/// sections.
proof fn lemma_doc_roundtrip(secs: Seq<IniSectionView>, acc: Seq<IniSectionView>)
    requires
        wf_doc(secs),
    ensures
        spec_parse_ini_lines(doc_lines(secs), acc) == Some(acc + secs),
    decreases secs.len(),
{
    if secs.len() == 0 {
        assert(acc + secs =~= acc);
    } else {
        let s0 = secs.drop_last();
        assert(wf_section(secs[secs.len() - 1]));
        assert forall|i: int| 0 <= i < s0.len() implies wf_section(#[trigger] s0[i]) by {
            assert(s0[i] == secs[i]);
        }
        lemma_parse_lines_concat(doc_lines(s0), section_lines(secs.last()), acc);
        lemma_doc_roundtrip(s0, acc);
        lemma_section_roundtrip(secs.last(), acc + s0);
        assert((acc + s0).push(secs.last()) =~= acc + secs);
    }
}

/// Law: serialization loses nothing: parsing the serialized text of a
/// well-formed document yields the document back. Every document built by
/// parsing or by `set` with well-formed arguments is well-formed.
pub proof fn lemma_ini_roundtrip(secs: Seq<IniSectionView>)
    requires
        wf_doc(secs),
    ensures
        spec_parse_ini(spec_ini_text(secs)) == Some(secs),
{
    lemma_ini_text_lines(secs);
    lemma_doc_roundtrip(secs, Seq::empty());
    assert(Seq::<IniSectionView>::empty() + secs =~= secs);
}

impl IniDoc {
    /// Serializes the document back to configuration text: each section as a
    /// `[name]` line followed by one `key=value` line per entry.
    pub fn to_text(&self) -> (r: String)
        ensures
            r@ == spec_ini_text(self@),
    {
        proof {
            reveal_strlit("[");
            reveal_strlit("]\n");
            reveal_strlit("=");
            reveal_strlit("\n");
        }
        let mut out = String::new();
        let n = self.sections.len();
        proof {
            assert(self@.take(0) =~= Seq::<IniSectionView>::empty());
            assert(out@ =~= spec_ini_text(self@.take(0)));
        }
        let mut i: usize = 0;
        while i < n
            invariant
                0 <= i <= n,
                n == self.sections@.len(),
                self@.len() == n,
                out@ == spec_ini_text(self@.take(i as int)),
            decreases n - i,
        {
            proof {
                reveal_strlit("[");
                reveal_strlit("]\n");
                reveal_strlit("=");
                reveal_strlit("\n");
                assert(self@.take(i as int + 1).drop_last() =~= self@.take(i as int));
                assert(self@.take(i as int + 1).last() == self@[i as int]);
                assert(self@[i as int] == self.sections@[i as int]@);
            }
            let sec = &self.sections[i];
            out.append("[");
            out.append(sec.name.as_str());
            out.append("]\n");
            let ghost head = out@;
            proof {
                assert(head =~= spec_ini_text(self@.take(i as int)) + seq!['['] + sec@.name
                    + seq![']'] + seq!['\n']);
            }
            let m = sec.entries.len();
            let ghost ev = sec@.entries;
            proof {
                assert(ev.take(0) =~= Seq::<(Seq<char>, Seq<char>)>::empty());
                assert(out@ =~= head + spec_entries_text(ev.take(0)));
            }
            let mut j: usize = 0;
            while j < m
                invariant
                    0 <= j <= m,
                    m == sec.entries@.len(),
                    ev == sec@.entries,
                    ev.len() == m,
                    out@ == head + spec_entries_text(ev.take(j as int)),
                decreases m - j,
            {
                proof {
                    reveal_strlit("=");
                    reveal_strlit("\n");
                    assert(ev.take(j as int + 1).drop_last() =~= ev.take(j as int));
                    assert(ev.take(j as int + 1).last() == ev[j as int]);
                    assert(ev[j as int] == (sec.entries@[j as int].0@, sec.entries@[j as int].1@));
                }
                out.append(sec.entries[j].0.as_str());
                out.append("=");
                out.append(sec.entries[j].1.as_str());
                out.append("\n");
                proof {
                    assert(out@ =~= head + spec_entries_text(ev.take(j as int + 1)));
                }
                j = j + 1;
            }
            proof {
                assert(ev.take(m as int) =~= ev);
                assert(out@ =~= spec_ini_text(self@.take(i as int + 1)));
            }
            i = i + 1;
        }
        proof {
            assert(self@.take(n as int) =~= self@);
        }
        out
    }
}

} // verus!
